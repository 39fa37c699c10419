//! What a report promises: every number it prints, read back, is the one it
//! stands for, and every wanted device has its row.

use vstd::prelude::*;

use crate::device::manager::{
    all_distinct, bus_in, buses_distinct, device_in, devices_distinct, endpoints_in_order, row_in, DeviceManager,
    UsbBus,
};
use crate::device::{text_of, UsbDevice};
use crate::filter::{set_wants_device, Wanted};
use crate::number::{
    all_digits, decimal, law_decimal_is_worth_its_number, law_fixed_text_shows_its_number,
    law_rounding_is_to_the_nearest, lemma_hex4_round_trip, lemma_powers_of_ten, nearest, place_value, read_uint,
    rounded, shows,
};
use crate::order::{is_sorted, lemma_rank, lemma_sorted, lemma_sorted_is_there, rank, sorted, Ranked};
use crate::speed::UsbSpeed;
use crate::sysfs::Sysfs;
use crate::usbmon::{TransferType, UsbPacket};

use super::quiet::law_baseline_knows_every_endpoint;
use super::{
    all_endpoint_totals, all_totals, bus_line, bus_lines, bus_refs, bus_rx_sum, bus_text, bus_texts, bus_tx_sum,
    chain_le, device_line, device_lines, device_text, device_texts, law_baseline_knows_every_row, listed_before,
    mbps_text, packet_step, packets_before_stop, rate_text, report_text, rx_sum, shown, tells_window, tx_sum,
    Baseline, BusLine, BusReport, DeviceLine, Received, Report,
};

verus! {

/// Whether `t` reads as a rate in megabytes per second with two places: what
/// its digits write is at most half a hundredth away from `bytes`, in
/// millions, over `window_ns`, in seconds.
pub open spec fn reads_as_rate(t: Seq<char>, bytes: u64, window_ns: u64) -> bool {
    exists|hundredths: int|
        #[trigger] shows(t, 2, hundredths) && -window_ns <= 2 * (hundredths * window_ns - bytes * 100_000) <= window_ns
}

/// Whether `t` reads as a speed in megabits per second: digits alone for a
/// whole number, and the nearest tenth otherwise.
pub open spec fn reads_as_mbps(t: Seq<char>, speed: UsbSpeed) -> bool {
    ||| all_digits(t) && place_value(t) * 1_000_000 == speed.bps
    ||| speed.bps % 1_000_000 != 0 && exists|tenths: int|
        #[trigger] shows(t, 1, tenths) && -100_000 <= 2 * (tenths * 100_000 - speed.bps) <= 100_000
}

/// Whether `t` reads as the whole number `n`.
pub open spec fn reads_as(t: Seq<char>, n: int) -> bool {
    all_digits(t) && place_value(t) == n
}

/// What a device's row is made of.
pub struct DeviceRow {
    pub bus: Seq<char>,
    pub address: Seq<char>,
    pub mark: Seq<char>,
    pub ids: Seq<char>,
    pub speed: Seq<char>,
    pub tilde: Seq<char>,
    pub rx: Seq<char>,
    pub tx: Seq<char>,
    pub name: Seq<char>,
}

impl DeviceRow {
    /// The row, laid out.
    pub open spec fn text(self) -> Seq<char> {
        "  "@ + self.bus + ":"@ + self.address + "  "@ + self.mark + "  "@ + self.ids + "  "@ + self.speed
            + " Mbps  "@ + self.tilde + "rx "@ + self.rx + " MB/s  "@ + self.tilde + "tx "@ + self.tx + " MB/s  "@
            + self.name + "\n"@
    }

    /// Whether every part reads as what a device's line holds, with rates
    /// over the window.
    pub open spec fn reads(self, d: DeviceLine, window_ns: u64) -> bool {
        &&& reads_as(self.bus, d.bus as int)
        &&& reads_as(self.address, d.address as int)
        &&& self.mark == (if d.internal == Some(true) {
            "i"@
        } else {
            " "@
        })
        &&& (d.vendor_id is Some && d.product_id is Some ==> self.ids == d.vendor_id->0 + ":"@ + d.product_id->0)
        &&& (d.vendor_id is None || d.product_id is None ==> self.ids == "----:----"@)
        &&& reads_as_mbps(self.speed, d.speed)
        &&& (d.estimated <==> self.tilde == "~"@)
        &&& (!d.estimated <==> self.tilde == ""@)
        &&& reads_as_rate(self.rx, d.rx_bytes, window_ns)
        &&& reads_as_rate(self.tx, d.tx_bytes, window_ns)
        &&& (d.vendor is Some && d.product is Some ==> self.name == d.vendor->0 + " "@ + d.product->0)
        &&& (d.vendor is Some && d.product is None ==> self.name == d.vendor->0)
        &&& (d.vendor is None && d.product is Some ==> self.name == d.product->0)
        &&& (d.vendor is None && d.product is None ==> self.name == "Unknown"@)
    }
}

/// What a bus's header is made of.
pub struct BusHeader {
    pub bus: Seq<char>,
    pub speed: Seq<char>,
    pub rx: Seq<char>,
    pub tx: Seq<char>,
}

impl BusHeader {
    /// The header, laid out.
    pub open spec fn text(self) -> Seq<char> {
        "bus "@ + self.bus + " ("@ + self.speed + " Mbps) rx "@ + self.rx + " MB/s tx "@ + self.tx + " MB/s\n"@
    }

    /// Whether every part reads as what a bus's line holds, with rates over
    /// the window.
    pub open spec fn reads(self, b: BusLine, window_ns: u64) -> bool {
        &&& reads_as(self.bus, b.bus as int)
        &&& reads_as_mbps(self.speed, b.speed)
        &&& reads_as_rate(self.rx, b.rx_bytes, window_ns)
        &&& reads_as_rate(self.tx, b.tx_bytes, window_ns)
    }
}

/// A printed rate is the window's bytes over the window: read back, the
/// number differs by at most half a hundredth from `bytes * 1000 /
/// window_ns`.
pub proof fn law_a_rate_is_bytes_over_the_window(bytes: u64, window_ns: u64)
    requires
        window_ns > 0,
    ensures
        reads_as_rate(rate_text(bytes, window_ns), bytes, window_ns),
{
    let hundredths = rounded(bytes as nat * 100_000, window_ns as nat);
    law_rounding_is_to_the_nearest(bytes as nat * 100_000, window_ns as nat);
    lemma_powers_of_ten();
    law_fixed_text_shows_its_number(hundredths, 100, 2);
    assert(shows(rate_text(bytes, window_ns), 2, hundredths as int));
}

proof fn lemma_mbps(speed: UsbSpeed) -> (t: Seq<char>)
    ensures
        mbps_text(speed) == t + " Mbps"@,
        reads_as_mbps(t, speed),
{
    if speed.bps % 1_000_000 == 0 {
        law_decimal_is_worth_its_number(speed.bps as nat / 1_000_000);
        decimal(speed.bps as nat / 1_000_000)
    } else {
        let tenths = rounded(speed.bps as nat, 100_000);
        law_rounding_is_to_the_nearest(speed.bps as nat, 100_000);
        lemma_powers_of_ten();
        law_fixed_text_shows_its_number(tenths, 10, 1);
        let t = crate::number::fixed_text(tenths, 10, 1);
        assert(shows(t, 1, tenths as int));
        t
    }
}

proof fn lemma_regroup(front: Seq<char>, a: Seq<char>, b: Seq<char>, c: Seq<char>)
    ensures
        front + (a + b) + c == front + a + (b + c),
{
    assert(front + (a + b) + c =~= front + a + (b + c));
}

proof fn lemma_swap(front: Seq<char>, a: Seq<char>, b: Seq<char>, c: Seq<char>, d: Seq<char>)
    requires
        a + b == c + d,
    ensures
        front + a + b == front + c + d,
{
    assert(front + a + b =~= front + (a + b));
    assert(front + c + d =~= front + (c + d));
}

/// A device's row says what its line holds: the address, the ids, the speed
/// and the names, and the rates over the window.
pub proof fn law_a_device_row_reads_back(d: DeviceLine, window_ns: u64) -> (row: DeviceRow)
    requires
        window_ns > 0,
    ensures
        device_text(d, window_ns) == row.text(),
        row.reads(d, window_ns),
{
    law_decimal_is_worth_its_number(d.bus as nat);
    law_decimal_is_worth_its_number(d.address as nat);
    law_a_rate_is_bytes_over_the_window(d.rx_bytes, window_ns);
    law_a_rate_is_bytes_over_the_window(d.tx_bytes, window_ns);
    let speed = lemma_mbps(d.speed);
    reveal_strlit("~");
    reveal_strlit("");
    reveal_strlit("~rx");
    reveal_strlit("~tx");
    reveal_strlit("rx");
    reveal_strlit("tx");
    reveal_strlit(" ");
    reveal_strlit("rx ");
    reveal_strlit("tx ");
    reveal_strlit(" Mbps");
    reveal_strlit("  ");
    reveal_strlit(" Mbps  ");
    assert("~"@.len() == 1 && ""@.len() == 0);
    let row = DeviceRow {
        bus: decimal(d.bus as nat),
        address: decimal(d.address as nat),
        mark: if d.internal == Some(true) {
            "i"@
        } else {
            " "@
        },
        ids: super::ids_text(d),
        speed,
        tilde: if d.estimated {
            "~"@
        } else {
            ""@
        },
        rx: rate_text(d.rx_bytes, window_ns),
        tx: rate_text(d.tx_bytes, window_ns),
        name: super::names_text(d),
    };
    let rx_label = if d.estimated {
        "~rx"@
    } else {
        "rx"@
    };
    let tx_label = if d.estimated {
        "~tx"@
    } else {
        "tx"@
    };
    assert(" Mbps"@ + "  "@ =~= " Mbps  "@);
    assert(row.tilde + "rx "@ =~= rx_label + " "@);
    assert(row.tilde + "tx "@ =~= tx_label + " "@);
    let front = "  "@ + row.bus + ":"@ + row.address + "  "@ + row.mark + "  "@ + row.ids + "  "@;
    lemma_regroup(front, speed, " Mbps"@, "  "@);
    let left = front + speed + " Mbps  "@;
    lemma_swap(left, rx_label, " "@, row.tilde, "rx "@);
    let middle = left + row.tilde + "rx "@ + row.rx + " MB/s  "@;
    lemma_swap(middle, tx_label, " "@, row.tilde, "tx "@);
    row
}

/// A bus's header says what its line holds, with rates over the window, and
/// the rows of its devices follow.
pub proof fn law_a_bus_header_reads_back(b: BusLine, window_ns: u64) -> (header: BusHeader)
    requires
        window_ns > 0,
    ensures
        bus_text(b, window_ns) == header.text() + device_texts(b.devices, window_ns),
        header.reads(b, window_ns),
{
    law_decimal_is_worth_its_number(b.bus as nat);
    law_a_rate_is_bytes_over_the_window(b.rx_bytes, window_ns);
    law_a_rate_is_bytes_over_the_window(b.tx_bytes, window_ns);
    let speed = lemma_mbps(b.speed);
    let header = BusHeader {
        bus: decimal(b.bus as nat),
        speed,
        rx: rate_text(b.rx_bytes, window_ns),
        tx: rate_text(b.tx_bytes, window_ns),
    };
    reveal_strlit(" Mbps");
    reveal_strlit(") rx ");
    reveal_strlit(" Mbps) rx ");
    assert(" Mbps"@ + ") rx "@ =~= " Mbps) rx "@);
    assert(bus_text(b, window_ns) =~= header.text() + device_texts(b.devices, window_ns));
    header
}

proof fn lemma_row_among(lines: Seq<DeviceLine>, window_ns: u64, j: int) -> (around: (Seq<char>, Seq<char>))
    requires
        0 <= j < lines.len(),
    ensures
        device_texts(lines, window_ns) == around.0 + device_text(lines[j], window_ns) + around.1,
        around.0 == device_texts(lines.take(j), window_ns),
    decreases lines.len(),
{
    let last = device_text(lines.last(), window_ns);
    if j == lines.len() - 1 {
        assert(lines.take(j) =~= lines.drop_last());
        let around = (device_texts(lines.drop_last(), window_ns), Seq::<char>::empty());
        assert(around.0 + last + around.1 =~= around.0 + last);
        around
    } else {
        assert(lines.drop_last()[j] == lines[j]);
        let before = lemma_row_among(lines.drop_last(), window_ns, j);
        assert(lines.drop_last().take(j) =~= lines.take(j));
        let around = (before.0, before.1 + last);
        assert(around.0 + device_text(lines[j], window_ns) + around.1 =~= (before.0 + device_text(
            lines[j],
            window_ns,
        ) + before.1) + last);
        around
    }
}

proof fn lemma_bus_among(lines: Seq<BusLine>, window_ns: u64, i: int) -> (around: (Seq<char>, Seq<char>))
    requires
        0 <= i < lines.len(),
    ensures
        bus_texts(lines, window_ns) == around.0 + bus_text(lines[i], window_ns) + around.1,
    decreases lines.len(),
{
    let last = bus_text(lines.last(), window_ns);
    if i == lines.len() - 1 {
        let around = (bus_texts(lines.drop_last(), window_ns), Seq::<char>::empty());
        assert(around.0 + last + around.1 =~= around.0 + last);
        around
    } else {
        assert(lines.drop_last()[i] == lines[i]);
        let before = lemma_bus_among(lines.drop_last(), window_ns, i);
        let around = (before.0, before.1 + last);
        assert(around.0 + bus_text(lines[i], window_ns) + around.1 =~= (before.0 + bus_text(lines[i], window_ns)
            + before.1) + last);
        around
    }
}

proof fn lemma_flat(
    a: Seq<char>,
    b: Seq<char>,
    c: Seq<char>,
    d: Seq<char>,
    e: Seq<char>,
    f: Seq<char>,
    g: Seq<char>,
    h: Seq<char>,
)
    ensures
        a + (b + (c + (d + e + f)) + g) + h == (a + b) + c + d + e + (f + g + h),
{
    assert(a + (b + (c + (d + e + f)) + g) + h =~= (a + b) + c + d + e + (f + g + h));
}

/// Every bus of a report has its header in the text, and every device of the
/// bus its row behind that header; header and row read back as their lines,
/// with rates over the report's window.
pub proof fn law_a_report_shows_every_row(r: Report, i: int, j: int) -> (parts: (
    Seq<char>,
    BusHeader,
    Seq<char>,
    DeviceRow,
    Seq<char>,
))
    requires
        r.window_ns > 0,
        0 <= i < r.buses@.len(),
        0 <= j < r.buses@[i].devices@.len(),
    ensures
        report_text(r) == parts.0 + parts.1.text() + parts.2 + parts.3.text() + parts.4,
        parts.1.reads(r.buses@[i]@, r.window_ns),
        parts.2 == device_texts(r.buses@[i]@.devices.take(j), r.window_ns),
        parts.3.reads(r.buses@[i].devices@[j]@, r.window_ns),
{
    let lines = r.buses@.map_values(|b: BusReport| b@);
    let b = lines[i];
    assert(b == r.buses@[i]@);
    let buses = lemma_bus_among(lines, r.window_ns, i);
    let header = law_a_bus_header_reads_back(b, r.window_ns);
    let rows = lemma_row_among(b.devices, r.window_ns, j);
    assert(b.devices[j] == r.buses@[i].devices@[j]@);
    let row = law_a_device_row_reads_back(b.devices[j], r.window_ns);
    let head = "ts="@ + crate::number::fixed_text(r.timestamp_ms as nat, 1000, 3) + " window="@
        + crate::number::fixed_text(rounded(r.window_ns as nat, 10_000_000), 100, 2) + "s source="@ + r.source@
        + " dropped="@ + decimal(r.dropped_packets as nat) + "\n"@;
    let parts = (head + buses.0, header, rows.0, row, rows.1 + buses.1 + "\n"@);
    assert(report_text(r) == head + bus_texts(lines, r.window_ns) + "\n"@);
    lemma_flat(head, buses.0, header.text(), rows.0, row.text(), rows.1, buses.1, "\n"@);
    parts
}

/// What the first line of a report is made of.
pub struct ReportHead {
    pub timestamp: Seq<char>,
    pub window: Seq<char>,
    pub dropped: Seq<char>,
}

/// A report's first line says when it was made, to the millisecond, over
/// which window, to the hundredth of a second, from which source and how many
/// packets were dropped; a report on no bus says nothing more.
pub proof fn law_a_report_head_reads_back(r: Report) -> (head: ReportHead)
    ensures
        exists|rest: Seq<char>|
            report_text(r) == #[trigger] ("ts="@ + head.timestamp + " window="@ + head.window + "s source="@
                + r.source@ + " dropped="@ + head.dropped + "\n"@ + rest) && (r.buses@.len() == 0 ==> rest == "\n"@),
        shows(head.timestamp, 3, r.timestamp_ms as int),
        exists|hundredths: int|
            #[trigger] shows(head.window, 2, hundredths) && nearest(
                hundredths,
                r.window_ns as int,
                10_000_000,
            ),
        reads_as(head.dropped, r.dropped_packets as int),
{
    lemma_powers_of_ten();
    law_fixed_text_shows_its_number(r.timestamp_ms as nat, 1000, 3);
    let hundredths = rounded(r.window_ns as nat, 10_000_000);
    law_rounding_is_to_the_nearest(r.window_ns as nat, 10_000_000);
    law_fixed_text_shows_its_number(hundredths, 100, 2);
    law_decimal_is_worth_its_number(r.dropped_packets as nat);
    let head = ReportHead {
        timestamp: crate::number::fixed_text(r.timestamp_ms as nat, 1000, 3),
        window: crate::number::fixed_text(hundredths, 100, 2),
        dropped: decimal(r.dropped_packets as nat),
    };
    let lines = r.buses@.map_values(|b: BusReport| b@);
    let rest = bus_texts(lines, r.window_ns) + "\n"@;
    assert(report_text(r) =~= "ts="@ + head.timestamp + " window="@ + head.window + "s source="@ + r.source@
        + " dropped="@ + head.dropped + "\n"@ + rest);
    assert(r.buses@.len() == 0 ==> rest =~= "\n"@);
    assert(shows(head.window, 2, hundredths as int));
    head
}

/// The sum of some numbers.
pub open spec fn sum_of(s: Seq<int>) -> int
    decreases s.len(),
{
    if s.len() == 0 {
        0
    } else {
        sum_of(s.drop_last()) + s.last()
    }
}

/// Whether `total` is the sum of some numbers, or the largest number there is
/// when the sum is larger.
pub open spec fn is_sum(total: u64, s: Seq<int>) -> bool {
    if sum_of(s) <= u64::MAX {
        total == sum_of(s)
    } else {
        total == u64::MAX
    }
}

/// Whether a line tells of a device on a bus.
pub open spec fn tells_device(line: DeviceLine, bus_id: u8, d: UsbDevice) -> bool {
    &&& line.bus == bus_id
    &&& line.address == d.device_id
    &&& text_of(d.vendor) == line.vendor
    &&& text_of(d.product) == line.product
    &&& line.speed == d.speed
    &&& line.total_rx_bytes == d.bandwidth_stats.total_rx_bytes
    &&& line.total_tx_bytes == d.bandwidth_stats.total_tx_bytes
    &&& line.endpoints.len() == d.endpoints@.len()
    &&& (line.vendor_id is None <==> d.vendor_id is None)
    &&& (d.vendor_id matches Some(id) ==> writes_id(line.vendor_id->0, id))
    &&& (line.product_id is None <==> d.product_id is None)
    &&& (d.product_id matches Some(id) ==> writes_id(line.product_id->0, id))
}

/// Whether four hexadecimal digits in lower case write an id.
pub open spec fn writes_id(t: Seq<char>, id: u16) -> bool {
    &&& t.len() == 4
    &&& forall|i: int| 0 <= i < 4 ==> '0' <= #[trigger] t[i] <= '9' || 'a' <= t[i] <= 'f'
    &&& read_uint(t, 16, 65535) == Some(id as nat)
}

proof fn lemma_line_tells(bus_id: u8, d: UsbDevice, baseline: Baseline, text_active: bool, snapshot_loaded: bool)
    ensures
        tells_device(device_line(bus_id, d, baseline, text_active, snapshot_loaded), bus_id, d),
{
    if let Some(id) = d.vendor_id {
        lemma_hex4_round_trip(id as nat);
    }
    if let Some(id) = d.product_id {
        lemma_hex4_round_trip(id as nat);
    }
}

proof fn lemma_shown_has(devices: Seq<UsbDevice>, filter: Seq<Wanted>, k: int) -> (j: int)
    requires
        0 <= k < devices.len(),
        set_wants_device(filter, devices[k]),
    ensures
        0 <= j < shown(devices, filter).len(),
        *shown(devices, filter)[j] == devices[k],
    decreases devices.len(),
{
    if k == devices.len() - 1 {
        shown(devices, filter).len() - 1
    } else {
        assert(devices.drop_last()[k] == devices[k]);
        lemma_shown_has(devices.drop_last(), filter, k)
    }
}

proof fn lemma_shown_is(devices: Seq<UsbDevice>, filter: Seq<Wanted>, j: int) -> (k: int)
    requires
        0 <= j < shown(devices, filter).len(),
    ensures
        0 <= k < devices.len(),
        *shown(devices, filter)[j] == devices[k],
        set_wants_device(filter, devices[k]),
    decreases devices.len(),
{
    let front = shown(devices.drop_last(), filter);
    if j < front.len() {
        let k = lemma_shown_is(devices.drop_last(), filter, j);
        assert(devices.drop_last()[k] == devices[k]);
        k
    } else {
        devices.len() - 1
    }
}

proof fn lemma_shown_len(devices: Seq<UsbDevice>, filter: Seq<Wanted>)
    ensures
        shown(devices, filter).len() == devices.filter(|d: UsbDevice| set_wants_device(filter, d)).len(),
    decreases devices.len(),
{
    reveal(Seq::filter);
    if devices.len() > 0 {
        lemma_shown_len(devices.drop_last(), filter);
    }
}

proof fn lemma_sorted_has<T: Ranked>(s: Seq<T>, k: int) -> (j: int)
    requires
        0 <= k < s.len(),
    ensures
        0 <= j < sorted(s).len(),
        sorted(s)[j] == s[k],
{
    broadcast use vstd::seq_lib::group_to_multiset_ensures;

    lemma_rank::<T>();
    lemma_sorted(s, rank::<T>());
    assert(s.contains(s[k]));
    assert(s.to_multiset().count(s[k]) > 0);
    assert(sorted(s).contains(s[k]));
    choose|j: int| 0 <= j < sorted(s).len() && sorted(s)[j] == s[k]
}

proof fn lemma_bus_lines_has(
    buses: Seq<&UsbBus>,
    baseline: Baseline,
    text_active: bool,
    snapshot_loaded: bool,
    filter: Seq<Wanted>,
    b: int,
) -> (i: int)
    requires
        0 <= b < buses.len(),
        device_lines(*buses[b], baseline, text_active, snapshot_loaded, filter).len() > 0,
    ensures
        0 <= i < bus_lines(buses, baseline, text_active, snapshot_loaded, filter).len(),
        bus_lines(buses, baseline, text_active, snapshot_loaded, filter)[i] == bus_line(
            *buses[b],
            baseline,
            text_active,
            snapshot_loaded,
            filter,
        ),
    decreases buses.len(),
{
    if b == buses.len() - 1 {
        bus_lines(buses, baseline, text_active, snapshot_loaded, filter).len() - 1
    } else {
        assert(buses.drop_last()[b] == buses[b]);
        lemma_bus_lines_has(buses.drop_last(), baseline, text_active, snapshot_loaded, filter, b)
    }
}

proof fn lemma_bus_lines_is(
    buses: Seq<&UsbBus>,
    baseline: Baseline,
    text_active: bool,
    snapshot_loaded: bool,
    filter: Seq<Wanted>,
    i: int,
) -> (b: int)
    requires
        0 <= i < bus_lines(buses, baseline, text_active, snapshot_loaded, filter).len(),
    ensures
        0 <= b < buses.len(),
        bus_lines(buses, baseline, text_active, snapshot_loaded, filter)[i] == bus_line(
            *buses[b],
            baseline,
            text_active,
            snapshot_loaded,
            filter,
        ),
        device_lines(*buses[b], baseline, text_active, snapshot_loaded, filter).len() > 0,
    decreases buses.len(),
{
    let front = bus_lines(buses.drop_last(), baseline, text_active, snapshot_loaded, filter);
    if i < front.len() {
        let b = lemma_bus_lines_is(buses.drop_last(), baseline, text_active, snapshot_loaded, filter, i);
        assert(buses.drop_last()[b] == buses[b]);
        b
    } else {
        buses.len() - 1
    }
}

/// Every device that the filter wants has its line in the report, under its
/// own bus.
pub proof fn law_a_report_lists_every_wanted_device(
    r: Report,
    manager: DeviceManager,
    baseline: Baseline,
    elapsed_ns: u64,
    timestamp_ms: u64,
    source: Seq<char>,
    dropped: u64,
    text_active: bool,
    wanted: Seq<Wanted>,
    b: int,
    k: int,
) -> (at: (int, int))
    requires
        tells_window(r, manager, baseline, elapsed_ns, timestamp_ms, source, dropped, text_active, wanted),
        0 <= b < manager.buses@.len(),
        0 <= k < manager.buses@[b].devices@.len(),
        set_wants_device(wanted, manager.buses@[b].devices@[k]),
    ensures
        0 <= at.0 < r.buses@.len(),
        0 <= at.1 < r.buses@[at.0].devices@.len(),
        r.buses@[at.0].bus == manager.buses@[b].bus_id,
        r.buses@[at.0].speed == manager.buses@[b].speed,
        text_of(r.buses@[at.0].controller) == text_of(manager.buses@[b].controller),
        r.buses@[at.0].devices@.len() == manager.buses@[b].devices@.filter(
            |d: UsbDevice| set_wants_device(wanted, d),
        ).len(),
        tells_device(
            r.buses@[at.0].devices@[at.1]@,
            manager.buses@[b].bus_id,
            manager.buses@[b].devices@[k],
        ),
{
    let bus = manager.buses@[b];
    let loaded = manager.internal_snapshot is Some;
    let refs = bus_refs(manager.buses@);
    assert(*refs[b] == bus);
    let sb = lemma_sorted_has(refs, b);
    let sj = lemma_shown_has(bus.devices@, wanted, k);
    let j = lemma_sorted_has(shown(bus.devices@, wanted), sj);
    lemma_rank::<&UsbDevice>();
    lemma_sorted(shown(bus.devices@, wanted), rank::<&UsbDevice>());
    lemma_shown_len(bus.devices@, wanted);
    let i = lemma_bus_lines_has(sorted(refs), baseline, text_active, loaded, wanted, sb);
    let lines = r.buses@.map_values(|b: BusReport| b@);
    assert(lines[i] == r.buses@[i]@);
    assert(lines[i].devices[j] == r.buses@[i].devices@[j]@);
    lemma_line_tells(bus.bus_id, bus.devices@[k], baseline, text_active, loaded);
    (i, j)
}

/// Every line of a report tells of a device that the filter wants, under its
/// own bus; no bus is listed without a device.
pub proof fn law_a_report_lists_only_wanted_devices(
    r: Report,
    manager: DeviceManager,
    baseline: Baseline,
    elapsed_ns: u64,
    timestamp_ms: u64,
    source: Seq<char>,
    dropped: u64,
    text_active: bool,
    wanted: Seq<Wanted>,
    i: int,
    j: int,
) -> (at: (int, int))
    requires
        tells_window(r, manager, baseline, elapsed_ns, timestamp_ms, source, dropped, text_active, wanted),
        0 <= i < r.buses@.len(),
        0 <= j < r.buses@[i].devices@.len(),
    ensures
        0 <= at.0 < manager.buses@.len(),
        0 <= at.1 < manager.buses@[at.0].devices@.len(),
        set_wants_device(wanted, manager.buses@[at.0].devices@[at.1]),
        r.buses@[i].bus == manager.buses@[at.0].bus_id,
        tells_device(
            r.buses@[i].devices@[j]@,
            manager.buses@[at.0].bus_id,
            manager.buses@[at.0].devices@[at.1],
        ),
        r.buses@[i].devices@[j]@ == device_line(
            manager.buses@[at.0].bus_id,
            manager.buses@[at.0].devices@[at.1],
            baseline,
            text_active,
            manager.internal_snapshot is Some,
        ),
{
    let loaded = manager.internal_snapshot is Some;
    let refs = bus_refs(manager.buses@);
    let lines = r.buses@.map_values(|b: BusReport| b@);
    assert(lines[i] == r.buses@[i]@);
    assert(lines[i].devices[j] == r.buses@[i].devices@[j]@);
    let sb = lemma_bus_lines_is(sorted(refs), baseline, text_active, loaded, wanted, i);
    lemma_sorted_is_there(refs, sb);
    let b = choose|b: int| 0 <= b < refs.len() && #[trigger] refs[b] == sorted(refs)[sb];
    let bus = manager.buses@[b];
    assert(*refs[b] == bus);
    let seen = shown(bus.devices@, wanted);
    lemma_sorted_is_there(seen, j);
    let m = choose|m: int| 0 <= m < seen.len() && #[trigger] seen[m] == sorted(seen)[j];
    let k = lemma_shown_is(bus.devices@, wanted, m);
    lemma_line_tells(bus.bus_id, bus.devices@[k], baseline, text_active, loaded);
    (b, k)
}

/// A line counts the bytes of the window: what a device had moved when the
/// baseline was taken and what the line counts make up what it has moved by
/// now. A device that had no row then counts from zero.
pub proof fn law_a_line_counts_what_moved_since_the_baseline(
    earlier: Seq<UsbBus>,
    baseline: Baseline,
    bus_id: u8,
    d: UsbDevice,
    text_active: bool,
    snapshot_loaded: bool,
)
    requires
        all_distinct(earlier),
        baseline.device_totals@ == all_totals(earlier),
    ensures
        ({
            let line = device_line(bus_id, d, baseline, text_active, snapshot_loaded);
            &&& forall|b: int, k: int|
                #![trigger earlier[b].devices@[k]]
                0 <= b < earlier.len() && 0 <= k < earlier[b].devices@.len() && earlier[b].bus_id == bus_id
                    && earlier[b].devices@[k].device_id == d.device_id ==> {
                    let then = earlier[b].devices@[k].bandwidth_stats;
                    &&& then.total_rx_bytes <= d.bandwidth_stats.total_rx_bytes ==> then.total_rx_bytes + line.rx_bytes
                        == d.bandwidth_stats.total_rx_bytes
                    &&& then.total_tx_bytes <= d.bandwidth_stats.total_tx_bytes ==> then.total_tx_bytes + line.tx_bytes
                        == d.bandwidth_stats.total_tx_bytes
                    &&& then.total_rx_bytes > d.bandwidth_stats.total_rx_bytes ==> line.rx_bytes == 0
                    &&& then.total_tx_bytes > d.bandwidth_stats.total_tx_bytes ==> line.tx_bytes == 0
                }
            &&& (forall|b: int, k: int|
                #![trigger earlier[b].devices@[k]]
                0 <= b < earlier.len() && 0 <= k < earlier[b].devices@.len() ==> earlier[b].bus_id != bus_id
                    || earlier[b].devices@[k].device_id != d.device_id) ==> line.rx_bytes
                == d.bandwidth_stats.total_rx_bytes && line.tx_bytes == d.bandwidth_stats.total_tx_bytes
            &&& line.estimated <==> text_active && exists|i: int|
                0 <= i < d.endpoints@.len() && (#[trigger] d.endpoints@[i]).transfer_type == TransferType::Isochronous
                    && d.endpoints@[i].total_bytes > 0
            &&& line.internal == (if snapshot_loaded {
                Some(d.is_internal)
            } else {
                None
            })
        }),
{
    law_baseline_knows_every_row(earlier, bus_id, d.device_id);
    assert forall|b: int, k: int|
        #![trigger earlier[b].devices@[k]]
        0 <= b < earlier.len() && 0 <= k < earlier[b].devices@.len() && earlier[b].bus_id == bus_id
            && earlier[b].devices@[k].device_id == d.device_id implies row_in(earlier, bus_id, d.device_id) == Some(
        earlier[b].devices@[k],
    ) by {
        lemma_bus_in_is(earlier, b);
        lemma_device_in_is(earlier[b].devices@, k);
    }
    if let Some(x) = row_in(earlier, bus_id, d.device_id) {
        let bus = bus_in(earlier, bus_id)->0;
        let b = lemma_bus_in_where(earlier, bus_id);
        let k = lemma_device_in_where(bus.devices@, d.device_id);
        assert(earlier[b].devices@[k].device_id == d.device_id);
    }
}

proof fn lemma_bus_in_is(buses: Seq<UsbBus>, b: int)
    requires
        0 <= b < buses.len(),
        buses_distinct(buses),
    ensures
        bus_in(buses, buses[b].bus_id) == Some(buses[b]),
    decreases buses.len(),
{
    if b > 0 {
        assert(buses[0].bus_id != buses[b].bus_id);
        assert(buses.skip(1)[b - 1] == buses[b]);
        assert(buses_distinct(buses.skip(1))) by {
            assert forall|i: int, j: int| 0 <= i < j < buses.skip(1).len() implies (#[trigger] buses.skip(
                1,
            )[i]).bus_id != (#[trigger] buses.skip(1)[j]).bus_id by {
                assert(buses[i + 1].bus_id != buses[j + 1].bus_id);
            }
        }
        lemma_bus_in_is(buses.skip(1), b - 1);
    }
}

proof fn lemma_device_in_is(devices: Seq<UsbDevice>, k: int)
    requires
        0 <= k < devices.len(),
        devices_distinct(devices),
    ensures
        device_in(devices, devices[k].device_id) == Some(devices[k]),
    decreases devices.len(),
{
    if k > 0 {
        assert(devices[0].device_id != devices[k].device_id);
        assert(devices.skip(1)[k - 1] == devices[k]);
        assert(devices_distinct(devices.skip(1))) by {
            assert forall|i: int, j: int| 0 <= i < j < devices.skip(1).len() implies (#[trigger] devices.skip(
                1,
            )[i]).device_id != (#[trigger] devices.skip(1)[j]).device_id by {
                assert(devices[i + 1].device_id != devices[j + 1].device_id);
            }
        }
        lemma_device_in_is(devices.skip(1), k - 1);
    }
}

proof fn lemma_bus_in_where(buses: Seq<UsbBus>, id: u8) -> (b: int)
    requires
        bus_in(buses, id) is Some,
    ensures
        0 <= b < buses.len(),
        buses[b] == bus_in(buses, id)->0,
        buses[b].bus_id == id,
    decreases buses.len(),
{
    if buses[0].bus_id == id {
        0
    } else {
        let b = lemma_bus_in_where(buses.skip(1), id);
        assert(buses.skip(1)[b] == buses[b + 1]);
        b + 1
    }
}

proof fn lemma_device_in_where(devices: Seq<UsbDevice>, id: u8) -> (k: int)
    requires
        device_in(devices, id) is Some,
    ensures
        0 <= k < devices.len(),
        devices[k] == device_in(devices, id)->0,
        devices[k].device_id == id,
    decreases devices.len(),
{
    if devices[0].device_id == id {
        0
    } else {
        let k = lemma_device_in_where(devices.skip(1), id);
        assert(devices.skip(1)[k] == devices[k + 1]);
        k + 1
    }
}

proof fn lemma_rx_sum(lines: Seq<DeviceLine>)
    ensures
        is_sum(rx_sum(lines), lines.map_values(|d: DeviceLine| d.rx_bytes as int)),
        sum_of(lines.map_values(|d: DeviceLine| d.rx_bytes as int)) >= 0,
        is_sum(tx_sum(lines), lines.map_values(|d: DeviceLine| d.tx_bytes as int)),
        sum_of(lines.map_values(|d: DeviceLine| d.tx_bytes as int)) >= 0,
    decreases lines.len(),
{
    if lines.len() > 0 {
        let front = lines.drop_last();
        lemma_rx_sum(front);
        assert(lines.map_values(|d: DeviceLine| d.rx_bytes as int).drop_last() =~= front.map_values(
            |d: DeviceLine| d.rx_bytes as int,
        ));
        assert(lines.map_values(|d: DeviceLine| d.tx_bytes as int).drop_last() =~= front.map_values(
            |d: DeviceLine| d.tx_bytes as int,
        ));
    }
}

proof fn lemma_bus_rx_sum(lines: Seq<BusLine>)
    ensures
        is_sum(bus_rx_sum(lines), lines.map_values(|b: BusLine| b.rx_bytes as int)),
        sum_of(lines.map_values(|b: BusLine| b.rx_bytes as int)) >= 0,
        is_sum(bus_tx_sum(lines), lines.map_values(|b: BusLine| b.tx_bytes as int)),
        sum_of(lines.map_values(|b: BusLine| b.tx_bytes as int)) >= 0,
    decreases lines.len(),
{
    if lines.len() > 0 {
        let front = lines.drop_last();
        lemma_bus_rx_sum(front);
        assert(lines.map_values(|b: BusLine| b.rx_bytes as int).drop_last() =~= front.map_values(
            |b: BusLine| b.rx_bytes as int,
        ));
        assert(lines.map_values(|b: BusLine| b.tx_bytes as int).drop_last() =~= front.map_values(
            |b: BusLine| b.tx_bytes as int,
        ));
    }
}

/// A bus's counts are the sums over its devices' lines, and the report's
/// totals the sums over its buses; a sum too large to write stays at the
/// largest number. The window is the measured time, one millisecond at least.
pub proof fn law_counts_add_up(
    r: Report,
    manager: DeviceManager,
    baseline: Baseline,
    elapsed_ns: u64,
    timestamp_ms: u64,
    source: Seq<char>,
    dropped: u64,
    text_active: bool,
    wanted: Seq<Wanted>,
)
    requires
        tells_window(r, manager, baseline, elapsed_ns, timestamp_ms, source, dropped, text_active, wanted),
    ensures
        forall|i: int|
            #![trigger r.buses@[i]]
            0 <= i < r.buses@.len() ==> is_sum(
                r.buses@[i].rx_bytes,
                r.buses@[i]@.devices.map_values(|d: DeviceLine| d.rx_bytes as int),
            ) && is_sum(
                r.buses@[i].tx_bytes,
                r.buses@[i]@.devices.map_values(|d: DeviceLine| d.tx_bytes as int),
            ) && r.buses@[i].devices@.len() > 0,
        is_sum(r.total_rx_bytes, r.buses@.map_values(|b: BusReport| b.rx_bytes as int)),
        is_sum(r.total_tx_bytes, r.buses@.map_values(|b: BusReport| b.tx_bytes as int)),
        r.window_ns >= 1_000_000,
        elapsed_ns >= 1_000_000 ==> r.window_ns == elapsed_ns,
        elapsed_ns < 1_000_000 ==> r.window_ns == 1_000_000,
        r.timestamp_ms == timestamp_ms,
        r.dropped_packets == dropped,
        r.source@ == source,
{
    let loaded = manager.internal_snapshot is Some;
    let refs = sorted(bus_refs(manager.buses@));
    let lines = r.buses@.map_values(|b: BusReport| b@);
    assert forall|i: int| #![trigger r.buses@[i]] 0 <= i < r.buses@.len() implies is_sum(
        r.buses@[i].rx_bytes,
        r.buses@[i]@.devices.map_values(|d: DeviceLine| d.rx_bytes as int),
    ) && is_sum(r.buses@[i].tx_bytes, r.buses@[i]@.devices.map_values(|d: DeviceLine| d.tx_bytes as int))
        && r.buses@[i].devices@.len() > 0 by {
        assert(lines[i] == r.buses@[i]@);
        let b = lemma_bus_lines_is(refs, baseline, text_active, loaded, wanted, i);
        lemma_rx_sum(lines[i].devices);
        assert(r.buses@[i]@.devices.len() > 0);
    }
    lemma_bus_rx_sum(lines);
    assert(lines.map_values(|b: BusLine| b.rx_bytes as int) =~= r.buses@.map_values(|b: BusReport| b.rx_bytes as int));
    assert(lines.map_values(|b: BusLine| b.tx_bytes as int) =~= r.buses@.map_values(|b: BusReport| b.tx_bytes as int));
}

/// A report lists its buses by number.
pub proof fn law_buses_are_listed_by_number(
    r: Report,
    manager: DeviceManager,
    baseline: Baseline,
    elapsed_ns: u64,
    timestamp_ms: u64,
    source: Seq<char>,
    dropped: u64,
    text_active: bool,
    wanted: Seq<Wanted>,
    i: int,
    j: int,
)
    requires
        tells_window(r, manager, baseline, elapsed_ns, timestamp_ms, source, dropped, text_active, wanted),
        0 <= i < j < r.buses@.len(),
    ensures
        r.buses@[i].bus <= r.buses@[j].bus,
{
    let loaded = manager.internal_snapshot is Some;
    let refs = bus_refs(manager.buses@);
    lemma_rank::<&UsbBus>();
    lemma_sorted(refs, rank::<&UsbBus>());
    let lines = r.buses@.map_values(|b: BusReport| b@);
    assert(lines[i] == r.buses@[i]@);
    assert(lines[j] == r.buses@[j]@);
    lemma_bus_lines_sorted(sorted(refs), baseline, text_active, loaded, wanted, i, j);
}

proof fn lemma_bus_lines_sorted(
    buses: Seq<&UsbBus>,
    baseline: Baseline,
    text_active: bool,
    snapshot_loaded: bool,
    filter: Seq<Wanted>,
    i: int,
    j: int,
)
    requires
        is_sorted(buses, rank::<&UsbBus>()),
        0 <= i < j < bus_lines(buses, baseline, text_active, snapshot_loaded, filter).len(),
    ensures
        ({
            let lines = bus_lines(buses, baseline, text_active, snapshot_loaded, filter);
            lines[i].bus <= lines[j].bus
        }),
    decreases buses.len(),
{
    let front = bus_lines(buses.drop_last(), baseline, text_active, snapshot_loaded, filter);
    assert(is_sorted(buses.drop_last(), rank::<&UsbBus>())) by {
        let le = rank::<&UsbBus>();
        let s = buses.drop_last();
        assert forall|x: int, y: int| 0 <= x < y < s.len() implies le(#[trigger] s[x], #[trigger] s[y]) by {
            assert(le(buses[x], buses[y]));
        }
    }
    if j < front.len() {
        lemma_bus_lines_sorted(buses.drop_last(), baseline, text_active, snapshot_loaded, filter, i, j);
    } else {
        let b = lemma_bus_lines_is(buses.drop_last(), baseline, text_active, snapshot_loaded, filter, i);
        assert(buses.drop_last()[b] == buses[b]);
        let le = rank::<&UsbBus>();
        assert(le(buses[b], buses[buses.len() - 1]));
    }
}

/// An endpoint's line counts the bytes of the window too: what the endpoint
/// had moved when the baseline was taken and what the line counts make up what
/// it has moved by now. It names the endpoint, its direction and its type.
pub proof fn law_an_endpoint_counts_what_moved_since_the_baseline(
    earlier: Seq<UsbBus>,
    baseline: Baseline,
    bus_id: u8,
    d: UsbDevice,
    text_active: bool,
    snapshot_loaded: bool,
    n: int,
    i: int,
    j: int,
    k: int,
)
    requires
        all_distinct(earlier),
        endpoints_in_order(earlier),
        baseline.endpoint_totals@ == all_endpoint_totals(earlier),
        0 <= n < d.endpoints@.len(),
        0 <= i < earlier.len(),
        0 <= j < earlier[i].devices@.len(),
        0 <= k < earlier[i].devices@[j].endpoints@.len(),
        earlier[i].bus_id == bus_id,
        earlier[i].devices@[j].device_id == d.device_id,
        earlier[i].devices@[j].endpoints@[k].endpoint == d.endpoints@[n].endpoint,
        earlier[i].devices@[j].endpoints@[k].dir_in == d.endpoints@[n].dir_in,
    ensures
        ({
            let line = device_line(bus_id, d, baseline, text_active, snapshot_loaded).endpoints[n];
            let now = d.endpoints@[n];
            let then = earlier[i].devices@[j].endpoints@[k];
            &&& line.endpoint == now.endpoint
            &&& line.direction == (if now.dir_in {
                "in"@
            } else {
                "out"@
            })
            &&& line.transfer_type == (match now.transfer_type {
                TransferType::Control => "control"@,
                TransferType::Isochronous => "iso"@,
                TransferType::Bulk => "bulk"@,
                TransferType::Interrupt => "interrupt"@,
            })
            &&& line.total_bytes == now.total_bytes
            &&& then.total_bytes <= now.total_bytes ==> then.total_bytes + line.bytes == now.total_bytes
            &&& then.total_bytes > now.total_bytes ==> line.bytes == 0
        }),
{
    law_baseline_knows_every_endpoint(earlier, i, j, k);
}

proof fn lemma_chain_le(a: Seq<nat>, b: Seq<nat>, k: int)
    requires
        0 <= k <= a.len(),
        k <= b.len(),
        forall|i: int| 0 <= i < k ==> a[i] == b[i],
    ensures
        k == a.len() ==> chain_le(a, b),
        k == b.len() && k < a.len() ==> !chain_le(a, b),
        k < a.len() && k < b.len() && a[k] < b[k] ==> chain_le(a, b),
        k < a.len() && k < b.len() && a[k] > b[k] ==> !chain_le(a, b),
    decreases k,
{
    if k > 0 {
        assert(a[0] == b[0]);
        assert forall|i: int| 0 <= i < k - 1 implies a.skip(1)[i] == b.skip(1)[i] by {
            assert(a[i + 1] == b[i + 1]);
        }
        lemma_chain_le(a.skip(1), b.skip(1), k - 1);
    }
}

/// Devices are listed by where they are plugged in: at the first port where
/// two chains part the lower number comes first, a hub before what is plugged
/// into it, a device without a port last, and at one place the lower address.
pub proof fn law_devices_are_ranked_by_port(a: UsbDevice, b: UsbDevice, k: int)
    ensures
        a.chain() is Some && b.chain() is None ==> listed_before(a, b) && !listed_before(b, a),
        a.chain() is None && b.chain() is None ==> (listed_before(a, b) <==> a.device_id <= b.device_id),
        a.chain() is Some && a.chain() == b.chain() ==> (listed_before(a, b) <==> a.device_id <= b.device_id),
        a.chain() is Some && b.chain() is Some && 0 <= k <= (a.chain()->0).len() && k <= (b.chain()->0).len() && (
        forall|i: int| 0 <= i < k ==> (a.chain()->0)[i] == (b.chain()->0)[i]) ==> {
            let x = a.chain()->0;
            let y = b.chain()->0;
            &&& k < x.len() && k < y.len() && x[k] < y[k] ==> listed_before(a, b) && !listed_before(b, a)
            &&& k == x.len() && k < y.len() ==> listed_before(a, b) && !listed_before(b, a)
        },
{
    if a.chain() is Some && b.chain() is Some && 0 <= k <= (a.chain()->0).len() && k <= (b.chain()->0).len() && (
    forall|i: int| 0 <= i < k ==> (a.chain()->0)[i] == (b.chain()->0)[i]) {
        let x = a.chain()->0;
        let y = b.chain()->0;
        lemma_chain_le(x, y, k);
        assert forall|i: int| 0 <= i < k implies y[i] == x[i] by {}
        lemma_chain_le(y, x, k);
    }
}

/// The devices of a bus stand in that order in its report.
pub proof fn law_devices_are_listed_in_their_order(
    bus: UsbBus,
    baseline: Baseline,
    text_active: bool,
    snapshot_loaded: bool,
    filter: Seq<Wanted>,
    i: int,
    j: int,
) -> (pair: (UsbDevice, UsbDevice))
    requires
        0 <= i < j < device_lines(bus, baseline, text_active, snapshot_loaded, filter).len(),
    ensures
        tells_device(device_lines(bus, baseline, text_active, snapshot_loaded, filter)[i], bus.bus_id, pair.0),
        tells_device(device_lines(bus, baseline, text_active, snapshot_loaded, filter)[j], bus.bus_id, pair.1),
        listed_before(pair.0, pair.1),
{
    let seen = shown(bus.devices@, filter);
    lemma_rank::<&UsbDevice>();
    lemma_sorted(seen, rank::<&UsbDevice>());
    let le = rank::<&UsbDevice>();
    assert(le(sorted(seen)[i], sorted(seen)[j]));
    lemma_line_tells(bus.bus_id, *sorted(seen)[i], baseline, text_active, snapshot_loaded);
    lemma_line_tells(bus.bus_id, *sorted(seen)[j], baseline, text_active, snapshot_loaded);
    (*sorted(seen)[i], *sorted(seen)[j])
}

/// A drain takes every packet up to the first attempt that gives none, and no
/// more.
pub proof fn law_a_drain_stops_at_the_first_gap(received: Seq<Received>)
    ensures
        packets_before_stop(received) <= received.len(),
        forall|i: int| 0 <= i < packets_before_stop(received) ==> (#[trigger] received[i]) is Packet,
        packets_before_stop(received) < received.len() ==> !(received[packets_before_stop(received) as int] is Packet),
    decreases received.len(),
{
    if received.len() > 0 && received[0] is Packet {
        law_a_drain_stops_at_the_first_gap(received.skip(1));
        assert forall|i: int| 0 <= i < packets_before_stop(received) implies (#[trigger] received[i]) is Packet by {
            if i > 0 {
                assert(received.skip(1)[i - 1] == received[i]);
            }
        }
    }
}

/// A packet leaves every other device's row, and every other bus, as it was.
pub proof fn law_a_packet_changes_its_own_row_alone(
    before: DeviceManager,
    packet: UsbPacket,
    sysfs: Sysfs,
    now_ms: u64,
    after: DeviceManager,
    b: u8,
    d: u8,
)
    requires
        packet_step(before, packet, sysfs, now_ms, after),
    ensures
        b != packet.bus_id || d != packet.device_id ==> row_in(after.buses@, b, d) == row_in(before.buses@, b, d),
        row_in(after.buses@, packet.bus_id, packet.device_id) is Some,
        b != packet.bus_id ==> bus_in(after.buses@, b) == bus_in(before.buses@, b),
        after.filter == before.filter && after.usbids == before.usbids && after.internal_snapshot
            == before.internal_snapshot,
{
    assert(after.row(b, d) == row_in(after.buses@, b, d));
    assert(before.row(b, d) == row_in(before.buses@, b, d));
    assert(after.row(packet.bus_id, packet.device_id) is Some);
}

} // verus!
