//! What a replay promises: it counts from nothing, shows every device, and is
//! labelled by its source.

use vstd::prelude::*;

use crate::device::manager::{scanned, speeds_read, stays_valid, DeviceManager, UsbBus};
use crate::filter::Wanted;
use crate::headless::laws::law_a_report_lists_only_wanted_devices;
use crate::headless::{all_totals, packet_step, tells_window, Baseline, Report};
use crate::snapshot::Snapshot;
use crate::sysfs::Sysfs;
use crate::usbmon::UsbPacket;

use super::{fresh, knows_nothing, played, replay_label, replayed, replayed_packets, tells_replay, FixtureSource};

verus! {

proof fn lemma_playing_keeps_the_snapshot(
    before: DeviceManager,
    packets: Seq<UsbPacket>,
    n: int,
    sysfs: Sysfs,
    now_ms: u64,
    after: DeviceManager,
)
    requires
        played(before, packets, n, sysfs, now_ms, after),
    ensures
        after.internal_snapshot == before.internal_snapshot,
    decreases n,
{
    if n > 0 {
        let mid = choose|mid: DeviceManager|
            played(before, packets, n - 1, sysfs, now_ms, mid) && #[trigger] packet_step(
                mid,
                packets[n - 1],
                sysfs,
                now_ms,
                after,
            );
        lemma_playing_keeps_the_snapshot(before, packets, n - 1, sysfs, now_ms, mid);
    }
}

/// A replay counts from nothing: what a device moved in the window is all
/// that it ever moved. The report is labelled by its source, and nothing was
/// dropped.
pub proof fn law_a_replay_counts_from_nothing(
    r: Report,
    snapshot: Option<Snapshot>,
    source: Option<FixtureSource>,
    packets: Seq<UsbPacket>,
    sysfs: Sysfs,
    elapsed_ns: u64,
    now_ms: u64,
    timestamp_ms: u64,
    i: int,
    j: int,
)
    requires
        tells_replay(r, snapshot, source, packets, sysfs, elapsed_ns, now_ms, timestamp_ms),
        0 <= i < r.buses@.len(),
        0 <= j < r.buses@[i].devices@.len(),
    ensures
        r.buses@[i].devices@[j].rx_bytes == r.buses@[i].devices@[j].total_rx_bytes,
        r.buses@[i].devices@[j].tx_bytes == r.buses@[i].devices@[j].total_tx_bytes,
        r.source@ == (match source {
            Some(FixtureSource::Binary) => "binary"@,
            Some(FixtureSource::Text) => "text"@,
            None => "none"@,
        }),
        r.dropped_packets == 0,
        source != Some(FixtureSource::Text) ==> !r.buses@[i].devices@[j].estimated,
        snapshot is None ==> r.buses@[i].devices@[j].internal is None,
        snapshot is Some ==> r.buses@[i].devices@[j].internal is Some,
{
    let (done, baseline) = choose|done: DeviceManager, baseline: Baseline|
        {
            &&& #[trigger] replayed(snapshot, replayed_packets(source, packets), sysfs, now_ms, done)
            &&& #[trigger] knows_nothing(baseline)
            &&& tells_window(
                r,
                done,
                baseline,
                elapsed_ns,
                timestamp_ms,
                replay_label(source),
                0,
                source == Some(FixtureSource::Text),
                Seq::<Wanted>::empty(),
            )
        };
    let (start, fed, listed) = choose|start: DeviceManager, fed: DeviceManager, listed: DeviceManager|
        {
            &&& #[trigger] fresh(start, sysfs.base@, snapshot)
            &&& played(
                start,
                replayed_packets(source, packets),
                replayed_packets(source, packets).len() as int,
                sysfs,
                now_ms,
                fed,
            )
            &&& #[trigger] scanned(fed, sysfs, now_ms, listed)
            &&& done.same_settings(listed)
            &&& speeds_read(listed.buses@, sysfs, done.buses@)
            &&& stays_valid(listed.buses@, done.buses@)
        };
    lemma_playing_keeps_the_snapshot(
        start,
        replayed_packets(source, packets),
        replayed_packets(source, packets).len() as int,
        sysfs,
        now_ms,
        fed,
    );
    let at = law_a_report_lists_only_wanted_devices(
        r,
        done,
        baseline,
        elapsed_ns,
        timestamp_ms,
        replay_label(source),
        0,
        source == Some(FixtureSource::Text),
        Seq::<Wanted>::empty(),
        i,
        j,
    );
    assert(all_totals(Seq::<UsbBus>::empty()).len() == 0);
    assert(baseline.device_totals@.len() == 0);
    let line = r.buses@[i].devices@[j]@;
    assert(line.rx_bytes == r.buses@[i].devices@[j].rx_bytes);
}

} // verus!
