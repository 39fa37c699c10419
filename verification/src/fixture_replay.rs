//! The replay core of the fixture harness: the capturer generates goldens by
//! the same path that replays them, so a committed golden equals what a
//! replay produces, by construction.

pub mod laws;

use vstd::prelude::*;

use crate::device::manager::{scanned, speeds_read, stays_valid, DeviceManager, UsbBus};
use crate::filter::{FilterSet, Wanted};
use crate::headless::{
    all_endpoint_totals, all_totals, build_report, packet_step, tells_window, Baseline, Report,
};
use crate::json::{json_of, parse, pretty_text, remove_member, without_member, write_pretty};
use crate::snapshot::Snapshot;
use crate::sysfs::Sysfs;
use crate::text::{from_chars, str_eq, to_chars};
use crate::usbmon::UsbPacket;

verus! {

/// Which usbmon interface a trace came from: selects the reader on replay and
/// the report's source label.
#[derive(Debug, Clone, Copy, PartialEq, Eq, Structural)]
pub enum FixtureSource {
    Binary,
    Text,
}

impl FixtureSource {
    /// The source label.
    pub open spec fn name(self) -> Seq<char> {
        match self {
            FixtureSource::Binary => "binary"@,
            FixtureSource::Text => "text"@,
        }
    }

    /// The file a trace is kept in.
    pub open spec fn trace_name(self) -> Seq<char> {
        match self {
            FixtureSource::Binary => "trace.bin"@,
            FixtureSource::Text => "trace.txt"@,
        }
    }

    /// The file a golden is kept in.
    pub open spec fn golden_name(self) -> Seq<char> {
        match self {
            FixtureSource::Binary => "golden.binary.json"@,
            FixtureSource::Text => "golden.text.json"@,
        }
    }

    /// The report's source label.
    pub fn label(self) -> (r: &'static str)
        ensures
            r@ == self.name(),
    {
        match self {
            FixtureSource::Binary => "binary",
            FixtureSource::Text => "text",
        }
    }

    /// The file a trace is kept in.
    pub fn trace_filename(self) -> (r: &'static str)
        ensures
            r@ == self.trace_name(),
    {
        match self {
            FixtureSource::Binary => "trace.bin",
            FixtureSource::Text => "trace.txt",
        }
    }

    /// The file a golden is kept in.
    pub fn golden_filename(self) -> (r: &'static str)
        ensures
            r@ == self.golden_name(),
    {
        match self {
            FixtureSource::Binary => "golden.binary.json",
            FixtureSource::Text => "golden.text.json",
        }
    }

    /// The token used in the `sources` list of `meta.toml`.
    pub fn tag(self) -> (r: &'static str)
        ensures
            r@ == self.name(),
    {
        self.label()
    }

    /// The source that a tag names.
    pub open spec fn tagged(tag: Seq<char>) -> Option<FixtureSource> {
        if tag == "binary"@ {
            Some(FixtureSource::Binary)
        } else if tag == "text"@ {
            Some(FixtureSource::Text)
        } else {
            None
        }
    }

    /// Parses a `sources` tag back into a source.
    pub fn from_tag(tag: &str) -> (r: Option<FixtureSource>)
        ensures
            r == FixtureSource::tagged(tag@),
    {
        if str_eq(tag, "binary") {
            Some(FixtureSource::Binary)
        } else if str_eq(tag, "text") {
            Some(FixtureSource::Text)
        } else {
            None
        }
    }
}

/// A source is the one that its tag names, and the tags differ.
pub proof fn law_source_round_trips_through_its_tag(source: FixtureSource)
    ensures
        FixtureSource::tagged(source.name()) == Some(source),
{
    reveal_strlit("binary");
    reveal_strlit("text");
    assert("binary"@.len() != "text"@.len());
}

/// Fixed replay window: every golden is computed as if exactly one second
/// elapsed, so all rates are deterministic.
pub const FIXED_ELAPSED_NS: u64 = 1_000_000_000;

/// The subset of `meta.toml` that the harness and discovery read. Other keys
/// are documentation.
#[derive(Debug)]
pub struct Meta {
    pub sources: Vec<String>,
    pub controllers: Vec<String>,
    pub speed_classes: Vec<String>,
}

/// A discovered fixture bundle: its directory and its parsed `meta.toml`.
#[derive(Debug)]
pub struct Bundle {
    pub dir: String,
    pub meta: Meta,
}

/// The key that a golden leaves out: it differs with every run.
pub open spec fn clock_key() -> Seq<char> {
    "timestamp"@
}

/// Why a report could not be written as a golden, or read as JSON.
#[derive(Debug)]
pub enum JsonFault {
    Unreadable,
    Unwritable,
}

/// The golden text of a report's JSON value: the non-deterministic
/// `timestamp` key removed, pretty-printed for readable diffs, with a
/// trailing newline.
pub fn report_to_golden_json(report: serde_json::Value) -> (r: Result<String, JsonFault>)
    ensures
        match pretty_text(without_member(report, clock_key())) {
            Some(text) => r matches Ok(s) && s@ == text.push('\n'),
            None => r == Err::<String, JsonFault>(JsonFault::Unwritable),
        },
{
    let mut value = report;
    remove_member(&mut value, "timestamp");
    match write_pretty(&value) {
        Ok(text) => {
            let mut out = to_chars(text.as_str());
            out.push('\n');
            Ok(from_chars(&out))
        },
        Err(_) => Err(JsonFault::Unwritable),
    }
}

/// Parses report or golden JSON and drops the top-level `timestamp` key, so
/// two reports compare equal regardless of wall-clock.
pub fn to_masked_value(json: &str) -> (r: Result<serde_json::Value, JsonFault>)
    ensures
        match json_of(json@) {
            Some(v) => r == Ok::<serde_json::Value, JsonFault>(without_member(v, clock_key())),
            None => r == Err::<serde_json::Value, JsonFault>(JsonFault::Unreadable),
        },
        r matches Ok(v) ==> without_member(v, clock_key()) == v && !crate::json::member_names(v).contains(
            clock_key(),
        ),
{
    match parse(json) {
        Ok(mut value) => {
            remove_member(&mut value, "timestamp");
            Ok(value)
        },
        Err(_) => Err(JsonFault::Unreadable),
    }
}

/// What the first `n` packets do to a manager, one after another.
pub open spec fn played(
    before: DeviceManager,
    packets: Seq<UsbPacket>,
    n: int,
    sysfs: Sysfs,
    now_ms: u64,
    after: DeviceManager,
) -> bool
    decreases n,
{
    if n <= 0 {
        after == before
    } else {
        exists|mid: DeviceManager|
            played(before, packets, n - 1, sysfs, now_ms, mid) && #[trigger] packet_step(
                mid,
                packets[n - 1],
                sysfs,
                now_ms,
                after,
            )
    }
}

/// A manager with no rows that reads one tree and marks internal devices by
/// one snapshot.
pub open spec fn fresh(m: DeviceManager, base: Seq<char>, snapshot: Option<Snapshot>) -> bool {
    &&& m.buses@ == Seq::<UsbBus>::empty()
    &&& m.sysfs_base matches Some(b) && b@ == base
    &&& m.filter@ == Seq::<Wanted>::empty()
    &&& m.usbids is None
    &&& m.internal_snapshot == snapshot
}

/// The rows that a replay ends with: the packets from nothing, then one scan,
/// then the bus speeds.
pub open spec fn replayed(
    snapshot: Option<Snapshot>,
    packets: Seq<UsbPacket>,
    sysfs: Sysfs,
    now_ms: u64,
    done: DeviceManager,
) -> bool {
    exists|start: DeviceManager, fed: DeviceManager, listed: DeviceManager|
        {
            &&& #[trigger] fresh(start, sysfs.base@, snapshot)
            &&& played(start, packets, packets.len() as int, sysfs, now_ms, fed)
            &&& #[trigger] scanned(fed, sysfs, now_ms, listed)
            &&& done.same_settings(listed)
            &&& speeds_read(listed.buses@, sysfs, done.buses@)
            &&& stays_valid(listed.buses@, done.buses@)
        }
}

/// A baseline captured before any row was there.
pub open spec fn knows_nothing(baseline: Baseline) -> bool {
    &&& baseline.device_totals@ == all_totals(Seq::<UsbBus>::empty())
    &&& baseline.endpoint_totals@ == all_endpoint_totals(Seq::<UsbBus>::empty())
}

/// The label of a replay; a static fixture has no source.
pub open spec fn replay_label(source: Option<FixtureSource>) -> Seq<char> {
    match source {
        Some(s) => s.name(),
        None => "none"@,
    }
}

/// The packets that a replay applies: none without a source.
pub open spec fn replayed_packets(source: Option<FixtureSource>, packets: Seq<UsbPacket>) -> Seq<UsbPacket> {
    if source is Some {
        packets
    } else {
        Seq::empty()
    }
}

/// Whether a report tells of one replay: the packets of the source over the
/// tree, from nothing.
pub open spec fn tells_replay(
    r: Report,
    snapshot: Option<Snapshot>,
    source: Option<FixtureSource>,
    packets: Seq<UsbPacket>,
    sysfs: Sysfs,
    elapsed_ns: u64,
    now_ms: u64,
    timestamp_ms: u64,
) -> bool {
    exists|done: DeviceManager, baseline: Baseline|
        {
            &&& #[trigger] replayed(snapshot, replayed_packets(source, packets), sysfs, now_ms, done)
            &&& #[trigger] knows_nothing(baseline)
            &&& tells_window(
                r,
                done,
                baseline,
                elapsed_ns,
                timestamp_ms,
                replay_label(source),
                0,
                source == Some(FixtureSource::Text),
                Seq::<Wanted>::empty(),
            )
        }
}

/// Replays one bundle's trace, as if `elapsed_ns` had passed, into a
/// deterministic report. A static fixture has no source: its report shows the
/// devices without traffic.
pub fn replay_fixture_with_elapsed(
    sysfs: &Sysfs,
    snapshot: Option<Snapshot>,
    source: Option<FixtureSource>,
    packets: &Vec<UsbPacket>,
    elapsed_ns: u64,
    now_ms: u64,
    timestamp_ms: u64,
) -> (r: Report)
    ensures
        tells_replay(r, snapshot, source, packets@, *sysfs, elapsed_ns, now_ms, timestamp_ms),
{
    let mut manager = DeviceManager::with_sysfs_base(sysfs.base.clone());
    manager.set_internal_snapshot(snapshot);
    let ghost start = manager;
    let ghost applied = replayed_packets(source, packets@);
    assert(start.buses@ =~= Seq::<UsbBus>::empty());
    assert(fresh(start, sysfs.base@, snapshot));
    let baseline = Baseline::capture(&manager);
    assert(knows_nothing(baseline));
    let n = if source.is_some() {
        packets.len()
    } else {
        0
    };
    let mut i: usize = 0;
    while i < n
        invariant
            i <= n,
            n == applied.len(),
            n > 0 ==> applied == packets@,
            played(start, applied, i as int, *sysfs, now_ms, manager),
            manager.same_settings(start),
        decreases n - i,
    {
        let ghost mid = manager;
        manager.apply_packet(&packets[i], sysfs, now_ms);
        assert(packet_step(mid, applied[i + 1 - 1], *sysfs, now_ms, manager));
        i = i + 1;
    }
    let ghost fed = manager;
    manager.enumerate_present_devices(sysfs, now_ms);
    let ghost listed = manager;
    assert(scanned(fed, *sysfs, now_ms, listed));
    manager.update_bus_speeds(sysfs);
    assert(replayed(snapshot, applied, *sysfs, now_ms, manager));
    let filter = FilterSet::default();
    let text = match source {
        Some(FixtureSource::Text) => true,
        _ => false,
    };
    let label = match source {
        Some(s) => s.label(),
        None => "none",
    };
    build_report(&manager, &baseline, elapsed_ns, timestamp_ms, label, 0, text, &filter)
}

/// Replays one bundle's trace for one source into a deterministic report. A
/// single trace over the aggregate interface routes to the right bus, since
/// every packet carries its own bus id. The usb.ids overlay stays unset on
/// purpose: names come only from the captured strings, so a replay does not
/// depend on the host.
pub fn replay_fixture(
    sysfs: &Sysfs,
    snapshot: Option<Snapshot>,
    source: FixtureSource,
    packets: &Vec<UsbPacket>,
    now_ms: u64,
    timestamp_ms: u64,
) -> (r: Report)
    ensures
        r.version == 1,
        r.timestamp_ms == timestamp_ms,
        r.window_ns == FIXED_ELAPSED_NS,
        r.source@ == source.name(),
        r.dropped_packets == 0,
        tells_replay(r, snapshot, Some(source), packets@, *sysfs, FIXED_ELAPSED_NS, now_ms, timestamp_ms),
{
    replay_fixture_with_elapsed(sysfs, snapshot, Some(source), packets, FIXED_ELAPSED_NS, now_ms, timestamp_ms)
}

} // verus!
