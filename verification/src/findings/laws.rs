//! What a finding promises, said of the devices and ports it is drawn from:
//! who is called out, what is blamed, and when nothing is said.

use vstd::prelude::*;

use crate::connector::{
    attachment, device_on, law_position_round_trip, owns_a_port, port_text, position_name, PortIndex,
};
use crate::device::manager::UsbBus;
use crate::device::UsbDevice;
use crate::number::decimal;
use crate::order::{lemma_sorted, sorted_by};
use crate::speed::{short_text, UsbSpeed};

use super::{
    analysis, by_address, finding_text, first_peer_hub, half_of, opposite_port, paired_hub, peer_hub_of, row_named,
    row_of, rows_of, rows_of_bus, speed_of_bus, unclaimed, verdict, verdicts, FindingFacts, HalfFacts, Reason,
    RowFacts, Scene,
};

verus! {

/// Whether the row at `i` is the one that goes by its name: none of the same
/// name comes later.
pub open spec fn goes_by(rows: Seq<RowFacts>, i: int, name: Seq<char>) -> bool {
    &&& 0 <= i < rows.len()
    &&& rows[i].name == name
    &&& forall|j: int| i < j < rows.len() ==> (#[trigger] rows[j]).name != name
}

/// Whether no row has a name.
pub open spec fn is_absent(rows: Seq<RowFacts>, name: Seq<char>) -> bool {
    forall|j: int| 0 <= j < rows.len() ==> (#[trigger] rows[j]).name != name
}

/// Whether a bus number and a port chain are ones that a device name can
/// write.
pub open spec fn is_place(bus: nat, chain: Seq<nat>) -> bool {
    bus <= 255 && forall|i: int| 0 <= i < chain.len() ==> #[trigger] chain[i] <= u32::MAX
}

proof fn lemma_row_named(rows: Seq<RowFacts>, name: Seq<char>) -> (i: int)
    ensures
        row_named(rows, name) is None <==> is_absent(rows, name),
        row_named(rows, name) is Some ==> goes_by(rows, i, name) && row_named(rows, name) == Some(rows[i]),
    decreases rows.len(),
{
    if rows.len() == 0 {
        0
    } else if rows.last().name == name {
        assert(rows[rows.len() - 1].name == name);
        rows.len() - 1
    } else {
        let front = rows.drop_last();
        let i = lemma_row_named(front, name);
        if row_named(front, name) is Some {
            assert(rows[i] == front[i]);
            assert forall|j: int| i < j < rows.len() implies (#[trigger] rows[j]).name != name by {
                if j < front.len() {
                    assert(front[j] == rows[j]);
                }
            }
        } else {
            assert forall|j: int| 0 <= j < rows.len() implies (#[trigger] rows[j]).name != name by {
                if j < front.len() {
                    assert(front[j] == rows[j]);
                }
            }
        }
        i
    }
}

proof fn lemma_goes_by(rows: Seq<RowFacts>, i: int, name: Seq<char>)
    requires
        goes_by(rows, i, name),
    ensures
        row_named(rows, name) == Some(rows[i]),
{
    let k = lemma_row_named(rows, name);
    assert(rows[i].name == name);
    if k < i {
        assert(rows[i].name != name);
    } else if k > i {
        assert(rows[k].name != name);
    }
}

proof fn lemma_attached(bus: nat, chain: Seq<nat>, number: nat)
    requires
        is_place(bus, chain.push(number)),
    ensures
        attachment(position_name(bus, chain.push(number))) == Some((position_name(bus, chain), number)),
        attachment(position_name(bus, chain)) is None <==> chain.len() == 0,
{
    law_position_round_trip(bus, chain.push(number));
    assert(chain.push(number).drop_last() =~= chain);
    assert forall|i: int| 0 <= i < chain.len() implies #[trigger] chain[i] <= u32::MAX by {
        assert(chain.push(number)[i] == chain[i]);
    }
    law_position_round_trip(bus, chain);
}

/// A device linked above High Speed and below what it supports is always
/// called out, and the blame falls on what stands right above it only when
/// that is known to be slower than the device: the hub whose port it is on,
/// or the host port's bus. Otherwise the port above it permits more.
pub proof fn law_above_high_speed_only_a_slower_upstream_is_blamed(
    scene: Scene,
    row: RowFacts,
    bus_speed: Option<UsbSpeed>,
    bus: nat,
    chain: Seq<nat>,
    number: nat,
)
    requires
        is_place(bus, chain.push(number)),
        row.name == position_name(bus, chain.push(number)),
        row.capability is Some,
        480_000_000 < row.link.bps < (row.capability->0).speed.bps,
        scene.ports.dom().contains(position_name(bus, chain) + "-port"@ + decimal(number)),
    ensures
        verdict(scene, row, bus_speed) is Some,
        ({
            let f = verdict(scene, row, bus_speed)->0;
            let hub = position_name(bus, chain);
            let supported = (row.capability->0).speed.bps;
            &&& f.bus == row.bus && f.address == row.address && f.path == row.name && f.link == row.link
            &&& f.capability == row.capability->0
            &&& f.port == Some(hub + "-port"@ + decimal(number))
            &&& forall|p: int|
                #[trigger] goes_by(scene.rows, p, hub) && chain.len() > 0 ==> f.cause == Some(
                    (if 0 < scene.rows[p].link.bps < supported {
                        Reason::UpstreamHubLink { hub, hub_link: scene.rows[p].link }
                    } else {
                        Reason::UpstreamPermits
                    }),
                )
            &&& is_absent(scene.rows, hub) && chain.len() > 0 ==> f.cause == Some(Reason::UpstreamPermits)
            &&& chain.len() == 0 ==> f.cause == Some(
                (if bus_speed is Some && 0 < (bus_speed->0).bps < supported {
                    Reason::HostPortMax { max: bus_speed->0 }
                } else {
                    Reason::UpstreamPermits
                }),
            )
        }),
{
    lemma_attached(bus, chain, number);
    let hub = position_name(bus, chain);
    let k = lemma_row_named(scene.rows, hub);
    assert forall|p: int| #[trigger] goes_by(scene.rows, p, hub) implies row_named(scene.rows, hub) == Some(
        scene.rows[p],
    ) by {
        lemma_goes_by(scene.rows, p, hub);
    }
}

/// What a finding blames is there and is slower: a hub that is blamed for a
/// link above High Speed is a present device with a known link below what the
/// finding's device supports, a host port tops out at its bus's speed below
/// that, and a fast link is never blamed on a USB 2 port.
pub proof fn law_what_is_blamed_for_a_fast_link_is_slower(scene: Scene, row: RowFacts, bus_speed: Option<UsbSpeed>)
    requires
        verdict(scene, row, bus_speed) is Some,
        row.link.bps > 480_000_000,
    ensures
        ({
            let f = verdict(scene, row, bus_speed)->0;
            match f.cause {
                Some(Reason::UpstreamHubLink { hub, hub_link }) => {
                    &&& 0 < hub_link.bps < f.capability.speed.bps
                    &&& exists|p: int| #[trigger] goes_by(scene.rows, p, hub) && scene.rows[p].link == hub_link
                },
                Some(Reason::HostPortMax { max }) => {
                    &&& bus_speed == Some(max)
                    &&& 0 < max.bps < f.capability.speed.bps
                },
                Some(Reason::SuperSpeedSideEmpty { .. }) => false,
                Some(Reason::Usb2OnlyHostPort) => false,
                Some(Reason::UpstreamPermits) => f.port is Some,
                None => f.port is None,
            }
        }),
{
    let (parent, number) = attachment(row.name)->0;
    let k = lemma_row_named(scene.rows, parent);
    let f = verdict(scene, row, bus_speed)->0;
    if let Some(Reason::UpstreamHubLink { hub, hub_link }) = f.cause {
        assert(hub == parent);
        assert(scene.present(parent) is Some);
        assert(goes_by(scene.rows, k, hub) && scene.rows[k].link == hub_link);
    }
}

/// A device whose port the index does not know is called out without a cause,
/// whatever its link.
pub proof fn law_an_unknown_port_has_no_cause(
    scene: Scene,
    row: RowFacts,
    bus_speed: Option<UsbSpeed>,
    bus: nat,
    chain: Seq<nat>,
    number: nat,
)
    requires
        is_place(bus, chain.push(number)),
        row.name == position_name(bus, chain.push(number)),
        row.capability is Some,
        0 < row.link.bps < (row.capability->0).speed.bps,
        !scene.ports.dom().contains(position_name(bus, chain) + "-port"@ + decimal(number)),
    ensures
        verdict(scene, row, bus_speed) == Some(
            FindingFacts {
                bus: row.bus,
                address: row.address,
                path: row.name,
                port: None,
                link: row.link,
                capability: row.capability->0,
                cause: None,
            },
        ),
{
    lemma_attached(bus, chain, number);
}

/// A device that reached what it supports, whose link or capability is not
/// known, or that is a root hub, is never called out.
pub proof fn law_a_device_at_its_speed_is_not_called_out(scene: Scene, row: RowFacts, bus_speed: Option<UsbSpeed>)
    requires
        ({
            ||| row.capability is None
            ||| row.link.bps == 0
            ||| row.link.bps >= (row.capability->0).speed.bps
            ||| exists|bus: nat| bus <= 255 && row.name == #[trigger] position_name(bus, Seq::empty())
        }),
    ensures
        verdict(scene, row, bus_speed) is None,
{
    if exists|bus: nat| bus <= 255 && row.name == #[trigger] position_name(bus, Seq::empty()) {
        let bus = choose|bus: nat| bus <= 255 && row.name == #[trigger] position_name(bus, Seq::empty());
        law_position_round_trip(bus, Seq::empty());
    }
}

/// Whether a present device stands on a port of the index.
pub open spec fn holds_a_device(scene: Scene, port: Seq<char>) -> bool {
    scene.ports.dom().contains(port) && exists|i: int|
        0 <= i < scene.rows.len() && device_on(scene.ports[port].hub, scene.ports[port].number) == Some(
            (#[trigger] scene.rows[i]).name,
        )
}

proof fn lemma_device_at(scene: Scene, port: Seq<char>)
    ensures
        scene.device_at(port) is Some <==> holds_a_device(scene, port),
{
    if scene.ports.dom().contains(port) {
        if let Some(name) = device_on(scene.ports[port].hub, scene.ports[port].number) {
            let i = lemma_row_named(scene.rows, name);
            if row_named(scene.rows, name) is Some {
                assert(scene.rows[i].name == name);
            }
        }
    }
}

/// A link at High Speed or below is blamed on an empty SuperSpeed side only
/// where there is such a port, with the device's own port number on the
/// parent's other half, and no present device stands on it; on a USB 2 host
/// port only right at a root hub; and on the hub above only where the device
/// is on that hub.
pub proof fn law_what_is_blamed_for_a_slow_link_is_there(
    scene: Scene,
    row: RowFacts,
    bus_speed: Option<UsbSpeed>,
    bus: nat,
    chain: Seq<nat>,
    number: nat,
)
    requires
        is_place(bus, chain.push(number)),
        row.name == position_name(bus, chain.push(number)),
        row.link.bps <= 480_000_000,
        verdict(scene, row, bus_speed) is Some,
        (verdict(scene, row, bus_speed)->0).port is Some,
    ensures
        ({
            let f = verdict(scene, row, bus_speed)->0;
            let hub = position_name(bus, chain);
            &&& f.port == Some(hub + "-port"@ + decimal(number))
            &&& match f.cause {
                Some(Reason::SuperSpeedSideEmpty { peer_port }) => {
                    &&& scene.ports.dom().contains(peer_port)
                    &&& !holds_a_device(scene, peer_port)
                    &&& exists|half: Seq<char>|
                        half_of(scene, hub) == HalfFacts::Known(half) && peer_port == #[trigger] (half + "-port"@
                            + decimal(number))
                },
                Some(Reason::Usb2OnlyHostPort) => chain.len() == 0,
                Some(Reason::UpstreamHubLink { hub: blamed, hub_link }) => {
                    &&& chain.len() > 0
                    &&& blamed == hub
                    &&& forall|p: int|
                        #[trigger] goes_by(scene.rows, p, hub) ==> hub_link == scene.rows[p].link
                    &&& is_absent(scene.rows, hub) ==> hub_link.bps == 0
                },
                _ => false,
            }
        }),
{
    lemma_attached(bus, chain, number);
    let hub = position_name(bus, chain);
    let k = lemma_row_named(scene.rows, hub);
    assert forall|p: int| #[trigger] goes_by(scene.rows, p, hub) implies row_named(scene.rows, hub) == Some(
        scene.rows[p],
    ) by {
        lemma_goes_by(scene.rows, p, hub);
    }
    if let Some(ss) = opposite_port(scene, hub, number) {
        lemma_device_at(scene, ss);
        let half = half_of(scene, hub)->Known_0;
        assert(port_text(half, number) == half + "-port"@ + decimal(number));
    }
}

/// Nothing is said of a device linked at High Speed or below its capability
/// only where the SuperSpeed side of its connector is taken by a present
/// device, or where it is a hub whose other half is up or cannot be pinned
/// down; a slow link on any other known port is called out.
pub proof fn law_silence_has_a_reason(
    scene: Scene,
    row: RowFacts,
    bus_speed: Option<UsbSpeed>,
    bus: nat,
    chain: Seq<nat>,
    number: nat,
)
    requires
        is_place(bus, chain.push(number)),
        row.name == position_name(bus, chain.push(number)),
        row.capability is Some,
        0 < row.link.bps <= 480_000_000,
        row.link.bps < (row.capability->0).speed.bps,
        scene.ports.dom().contains(position_name(bus, chain) + "-port"@ + decimal(number)),
    ensures
        ({
            let hub = position_name(bus, chain);
            let is_hub = exists|name: Seq<char>| #[trigger]
                scene.ports.dom().contains(name) && scene.ports[name].hub == row.name;
            let other_half_up = is_hub && !(half_of(scene, row.name) is Missing);
            let taken = exists|half: Seq<char>|
                half_of(scene, hub) == HalfFacts::Known(half) && holds_a_device(
                    scene,
                    #[trigger] (half + "-port"@ + decimal(number)),
                );
            verdict(scene, row, bus_speed) is None <==> other_half_up || taken
        }),
{
    lemma_attached(bus, chain, number);
    let hub = position_name(bus, chain);
    if let Some(ss) = opposite_port(scene, hub, number) {
        lemma_device_at(scene, ss);
        let half = half_of(scene, hub)->Known_0;
        assert(port_text(half, number) == half + "-port"@ + decimal(number));
    }
    if exists|half: Seq<char>|
        half_of(scene, hub) == HalfFacts::Known(half) && holds_a_device(
            scene,
            #[trigger] (half + "-port"@ + decimal(number)),
        ) {
        let half = choose|half: Seq<char>|
            half_of(scene, hub) == HalfFacts::Known(half) && holds_a_device(
                scene,
                #[trigger] (half + "-port"@ + decimal(number)),
            );
        assert(port_text(half, number) == half + "-port"@ + decimal(number));
        assert(opposite_port(scene, hub, number) == Some(port_text(half, number)));
    }
}

proof fn lemma_rows_of_bus_has(devices: Seq<UsbDevice>, k: int) -> (i: int)
    requires
        0 <= k < devices.len(),
        row_of(devices[k]) is Some,
    ensures
        0 <= i < rows_of_bus(devices).len(),
        rows_of_bus(devices)[i] == row_of(devices[k])->0,
    decreases devices.len(),
{
    if k == devices.len() - 1 {
        rows_of_bus(devices).len() - 1
    } else {
        assert(devices.drop_last()[k] == devices[k]);
        lemma_rows_of_bus_has(devices.drop_last(), k)
    }
}

proof fn lemma_rows_of_bus_is(devices: Seq<UsbDevice>, i: int) -> (k: int)
    requires
        0 <= i < rows_of_bus(devices).len(),
    ensures
        0 <= k < devices.len(),
        row_of(devices[k]) == Some(rows_of_bus(devices)[i]),
    decreases devices.len(),
{
    let front = rows_of_bus(devices.drop_last());
    if i < front.len() {
        let k = lemma_rows_of_bus_is(devices.drop_last(), i);
        assert(devices.drop_last()[k] == devices[k]);
        k
    } else {
        devices.len() - 1
    }
}

proof fn lemma_rows_of_has(buses: Seq<UsbBus>, b: int, k: int) -> (i: int)
    requires
        0 <= b < buses.len(),
        0 <= k < buses[b].devices@.len(),
        row_of(buses[b].devices@[k]) is Some,
    ensures
        0 <= i < rows_of(buses).len(),
        rows_of(buses)[i] == row_of(buses[b].devices@[k])->0,
    decreases buses.len(),
{
    let front = rows_of(buses.drop_last());
    if b == buses.len() - 1 {
        let i = lemma_rows_of_bus_has(buses[b].devices@, k);
        assert(rows_of(buses)[front.len() + i] == rows_of_bus(buses[b].devices@)[i]);
        front.len() + i
    } else {
        assert(buses.drop_last()[b] == buses[b]);
        let i = lemma_rows_of_has(buses.drop_last(), b, k);
        assert(rows_of(buses)[i] == front[i]);
        i
    }
}

proof fn lemma_rows_of_is(buses: Seq<UsbBus>, i: int) -> (at: (int, int))
    requires
        0 <= i < rows_of(buses).len(),
    ensures
        0 <= at.0 < buses.len(),
        0 <= at.1 < buses[at.0].devices@.len(),
        row_of(buses[at.0].devices@[at.1]) == Some(rows_of(buses)[i]),
    decreases buses.len(),
{
    let front = rows_of(buses.drop_last());
    if i < front.len() {
        let at = lemma_rows_of_is(buses.drop_last(), i);
        assert(buses.drop_last()[at.0] == buses[at.0]);
        assert(rows_of(buses)[i] == front[i]);
        at
    } else {
        let k = lemma_rows_of_bus_is(buses.last().devices@, i - front.len());
        (buses.len() - 1, k)
    }
}

proof fn lemma_ordered_rows(buses: Seq<UsbBus>, x: RowFacts)
    ensures
        rows_of(buses).contains(x) <==> sorted_by(rows_of(buses), by_address()).contains(x),
        sorted_by(rows_of(buses), by_address()).len() == rows_of(buses).len(),
{
    broadcast use vstd::seq_lib::group_to_multiset_ensures;

    let rows = rows_of(buses);
    lemma_sorted(rows, by_address());
    let facts = sorted_by(rows, by_address());
    assert(rows.contains(x) <==> rows.to_multiset().count(x) > 0);
    assert(facts.contains(x) <==> facts.to_multiset().count(x) > 0);
}

proof fn lemma_verdicts_have(scene: Scene, rows: Seq<RowFacts>, buses: Seq<UsbBus>, i: int) -> (j: int)
    requires
        0 <= i < rows.len(),
        verdict(scene, rows[i], speed_of_bus(buses, rows[i].bus)) is Some,
    ensures
        0 <= j < verdicts(scene, rows, buses).len(),
        Some(verdicts(scene, rows, buses)[j]) == verdict(scene, rows[i], speed_of_bus(buses, rows[i].bus)),
    decreases rows.len(),
{
    if i == rows.len() - 1 {
        verdicts(scene, rows, buses).len() - 1
    } else {
        assert(rows.drop_last()[i] == rows[i]);
        lemma_verdicts_have(scene, rows.drop_last(), buses, i)
    }
}

proof fn lemma_verdicts_are(scene: Scene, rows: Seq<RowFacts>, buses: Seq<UsbBus>, j: int) -> (i: int)
    requires
        0 <= j < verdicts(scene, rows, buses).len(),
    ensures
        0 <= i < rows.len(),
        Some(verdicts(scene, rows, buses)[j]) == verdict(scene, rows[i], speed_of_bus(buses, rows[i].bus)),
    decreases rows.len(),
{
    let front = verdicts(scene, rows.drop_last(), buses);
    if j < front.len() {
        let i = lemma_verdicts_are(scene, rows.drop_last(), buses, j);
        assert(rows.drop_last()[i] == rows[i]);
        i
    } else {
        rows.len() - 1
    }
}

/// Whether a scene shows exactly the present devices of some buses that have
/// a sysfs name, with the ports of an index.
pub open spec fn shows_buses(scene: Scene, buses: Seq<UsbBus>, ports: PortIndex) -> bool {
    &&& scene.ports == ports@
    &&& forall|x: RowFacts| #[trigger]
        scene.rows.contains(x) <==> exists|b: int, k: int|
            0 <= b < buses.len() && 0 <= k < buses[b].devices@.len() && is_row(x, #[trigger] buses[b].devices@[k])
}

/// Whether a row tells of a present device.
pub open spec fn is_row(x: RowFacts, d: UsbDevice) -> bool {
    &&& !d.is_disconnected
    &&& d.name() == Some(x.name)
    &&& x.bus == d.bus_id
    &&& x.address == d.device_id
    &&& x.link == d.speed
    &&& x.capability == d.capability
}

/// The scene that findings on some buses are drawn from.
pub open spec fn scene_of(buses: Seq<UsbBus>, ports: PortIndex) -> Scene {
    Scene { rows: sorted_by(rows_of(buses), by_address()), ports: ports@, listing: ports.listing() }
}

proof fn lemma_scene(buses: Seq<UsbBus>, ports: PortIndex)
    ensures
        shows_buses(scene_of(buses, ports), buses, ports),
{
    let scene = scene_of(buses, ports);
    assert forall|x: RowFacts| #[trigger] scene.rows.contains(x) <==> exists|b: int, k: int|
        0 <= b < buses.len() && 0 <= k < buses[b].devices@.len() && is_row(x, #[trigger] buses[b].devices@[k]) by {
        lemma_ordered_rows(buses, x);
        if rows_of(buses).contains(x) {
            let i = choose|i: int| 0 <= i < rows_of(buses).len() && rows_of(buses)[i] == x;
            let at = lemma_rows_of_is(buses, i);
            assert(is_row(x, buses[at.0].devices@[at.1]));
        }
        if exists|b: int, k: int|
            0 <= b < buses.len() && 0 <= k < buses[b].devices@.len() && is_row(x, #[trigger] buses[b].devices@[k]) {
            let (b, k) = choose|b: int, k: int|
                0 <= b < buses.len() && 0 <= k < buses[b].devices@.len() && is_row(x, #[trigger] buses[b].devices@[k]);
            let i = lemma_rows_of_has(buses, b, k);
            assert(rows_of(buses)[i] == x);
        }
    }
}

/// Every present device with a sysfs name is judged once, among all of them:
/// when there is something to say of it, the findings say it.
pub proof fn law_every_present_device_is_judged(buses: Seq<UsbBus>, ports: PortIndex, b: int, k: int) -> (x: RowFacts)
    requires
        0 <= b < buses.len(),
        0 <= k < buses[b].devices@.len(),
        !buses[b].devices@[k].is_disconnected,
        buses[b].devices@[k].name() is Some,
    ensures
        is_row(x, buses[b].devices@[k]),
        shows_buses(scene_of(buses, ports), buses, ports),
        verdict(scene_of(buses, ports), x, speed_of_bus(buses, x.bus)) matches Some(f) ==> analysis(
            buses,
            ports,
        ).contains(f),
{
    let scene = scene_of(buses, ports);
    lemma_scene(buses, ports);
    let x = row_of(buses[b].devices@[k])->0;
    assert(is_row(x, buses[b].devices@[k]));
    assert(scene.rows.contains(x));
    let i = choose|i: int| 0 <= i < scene.rows.len() && scene.rows[i] == x;
    if verdict(scene, x, speed_of_bus(buses, x.bus)) is Some {
        let j = lemma_verdicts_have(scene, scene.rows, buses, i);
    }
    x
}

/// Every finding is about a present device of the buses, at its own bus and
/// address, linked below what it supports, and says what the topology shows.
pub proof fn law_every_finding_is_of_a_present_device(buses: Seq<UsbBus>, ports: PortIndex, j: int) -> (x: RowFacts)
    requires
        0 <= j < analysis(buses, ports).len(),
    ensures
        ({
            let f = analysis(buses, ports)[j];
            &&& f.bus == x.bus && f.address == x.address && f.path == x.name && f.link == x.link
            &&& Some(f.capability) == x.capability
            &&& 0 < f.link.bps < f.capability.speed.bps
            &&& verdict(scene_of(buses, ports), x, speed_of_bus(buses, x.bus)) == Some(f)
        }),
        exists|b: int, k: int|
            0 <= b < buses.len() && 0 <= k < buses[b].devices@.len() && is_row(x, #[trigger] buses[b].devices@[k]),
        shows_buses(scene_of(buses, ports), buses, ports),
{
    let scene = scene_of(buses, ports);
    lemma_scene(buses, ports);
    let i = lemma_verdicts_are(scene, scene.rows, buses, j);
    assert(scene.rows.contains(scene.rows[i]));
    scene.rows[i]
}

/// The hub that a finding blames for a link above High Speed is a present
/// device of the buses, linked at the rate that the finding names, below what
/// the finding's device supports.
pub proof fn law_a_blamed_hub_is_present_and_slower(buses: Seq<UsbBus>, ports: PortIndex, j: int)
    requires
        0 <= j < analysis(buses, ports).len(),
        analysis(buses, ports)[j].link.bps > 480_000_000,
    ensures
        analysis(buses, ports)[j].cause matches Some(Reason::UpstreamHubLink { hub, hub_link }) ==> {
            &&& 0 < hub_link.bps < analysis(buses, ports)[j].capability.speed.bps
            &&& exists|b: int, k: int|
                0 <= b < buses.len() && 0 <= k < buses[b].devices@.len() && !(
                #[trigger] buses[b].devices@[k]).is_disconnected && buses[b].devices@[k].name() == Some(hub)
                    && buses[b].devices@[k].speed == hub_link
        },
{
    let x = law_every_finding_is_of_a_present_device(buses, ports, j);
    let scene = scene_of(buses, ports);
    law_what_is_blamed_for_a_fast_link_is_slower(scene, x, speed_of_bus(buses, x.bus));
    if let Some(Reason::UpstreamHubLink { hub, hub_link }) = analysis(buses, ports)[j].cause {
        let p = choose|p: int| #[trigger] goes_by(scene.rows, p, hub) && scene.rows[p].link == hub_link;
        assert(scene.rows.contains(scene.rows[p]));
        let (b, k) = choose|b: int, k: int|
            0 <= b < buses.len() && 0 <= k < buses[b].devices@.len() && is_row(
                scene.rows[p],
                #[trigger] buses[b].devices@[k],
            );
        assert(!buses[b].devices@[k].is_disconnected);
    }
}

/// A bus's speed is that of the first bus with its number, and not known when
/// there is none.
pub proof fn law_the_speed_of_a_bus_is_its_own(buses: Seq<UsbBus>, bus: u8, i: int)
    requires
        0 <= i <= buses.len(),
        i < buses.len() ==> buses[i].bus_id == bus,
        forall|j: int| 0 <= j < i ==> (#[trigger] buses[j]).bus_id != bus,
    ensures
        speed_of_bus(buses, bus) == (if i < buses.len() {
            Some(buses[i].speed)
        } else {
            None
        }),
    decreases buses.len(),
{
    if i > 0 {
        assert(buses[0].bus_id != bus);
        assert forall|j: int| 0 <= j < i - 1 implies (#[trigger] buses.skip(1)[j]).bus_id != bus by {
            assert(buses[j + 1].bus_id != bus);
        }
        law_the_speed_of_a_bus_is_its_own(buses.skip(1), bus, i - 1);
    }
}

proof fn lemma_first_peer_hub(scene: Scene, listing: Seq<(Seq<char>, crate::connector::PortFacts)>, hub: Seq<char>)
    ensures
        first_peer_hub(scene, listing, hub) matches Some(half) ==> !is_absent(scene.rows, half),
    decreases listing.len(),
{
    if listing.len() > 0 {
        lemma_first_peer_hub(scene, listing.skip(1), hub);
        if let Some(half) = peer_hub_of(scene, listing[0], hub) {
            let i = lemma_row_named(scene.rows, half);
        }
    }
}

proof fn lemma_unclaimed(scene: Scene, rows: Seq<RowFacts>, parent: Seq<char>, superspeed: bool, i: int) -> (k: int)
    requires
        0 <= i < unclaimed(scene, rows, parent, superspeed).len(),
    ensures
        0 <= k < rows.len(),
        rows[k].name == unclaimed(scene, rows, parent, superspeed)[i],
        superspeed ==> rows[k].link.bps > 480_000_000,
        !superspeed ==> rows[k].link.bps <= 480_000_000,
        attachment(rows[k].name) matches Some((hub, _)) && hub == parent,
        owns_a_port(scene.ports, rows[k].name),
    decreases rows.len(),
{
    let front = unclaimed(scene, rows.drop_last(), parent, superspeed);
    if i < front.len() {
        let k = lemma_unclaimed(scene, rows.drop_last(), parent, superspeed, i);
        assert(rows.drop_last()[k] == rows[k]);
        k
    } else {
        rows.len() - 1
    }
}

/// A known other half is a present device, and only a present hub at High
/// Speed or below has one. Where the kernel pairs the hub's own port with one
/// that holds a present hub, that hub is the half; a half found otherwise is
/// linked above High Speed and attached to the half of the hub's parent.
pub proof fn law_a_known_half_is_present(scene: Scene, hub: Seq<char>, half: Seq<char>)
    requires
        half_of(scene, hub) == HalfFacts::Known(half),
    ensures
        !is_absent(scene.rows, half),
        exists|p: int| #[trigger] goes_by(scene.rows, p, hub) && scene.rows[p].link.bps <= 480_000_000,
        attachment(hub) is Some && paired_hub(scene, hub) is None ==> {
            &&& half_of(scene, (attachment(hub)->0).0) is Known
            &&& exists|k: int|
                0 <= k < scene.rows.len() && (#[trigger] scene.rows[k]).name == half && scene.rows[k].link.bps
                    > 480_000_000 && (attachment(half) matches Some((above, _)) && half_of(
                    scene,
                    (attachment(hub)->0).0,
                ) == HalfFacts::Known(above))
        },
{
    let p = lemma_row_named(scene.rows, hub);
    match attachment(hub) {
        None => lemma_first_peer_hub(scene, scene.listing, hub),
        Some((parent, _)) => {
            if let Some(h) = paired_hub(scene, hub) {
                let peer = scene.peer_port(hub)->0;
                let name = device_on(scene.ports[peer].hub, scene.ports[peer].number)->0;
                let i = lemma_row_named(scene.rows, name);
                assert(scene.rows[i].name == h);
            } else {
                let above = half_of(scene, parent)->Known_0;
                let supers = unclaimed(scene, scene.rows, above, true);
                assert(half == supers[0]);
                let k = lemma_unclaimed(scene, scene.rows, above, true, 0);
                assert(scene.rows[k].name == half);
            }
        },
    }
}

/// The sentence of a finding gives the link, what the device supports, where
/// that is only the floor that bcdUSB promises, and the cause: the blamed hub
/// with its link, the host port's rate or the empty port.
pub proof fn law_a_finding_says_what_it_found(f: FindingFacts)
    ensures
        ({
            let head = "linked at "@ + short_text(f.link.bps as nat) + ", supports "@ + short_text(
                f.capability.speed.bps as nat,
            );
            let mark = if f.capability.source == super::CapabilitySource::BcdUsb {
                " (from bcdUSB)"@
            } else {
                ""@
            };
            let why = match f.cause {
                None => "its port is unknown to the connector index"@,
                Some(Reason::UpstreamPermits) => "the port above it allows "@ + short_text(
                    f.capability.speed.bps as nat,
                ) + "; check the cable or the device"@,
                Some(Reason::HostPortMax { max }) => "this host port tops out at "@ + short_text(max.bps as nat),
                Some(Reason::UpstreamHubLink { hub, hub_link }) => "the hub above it ("@ + hub + ") is linked at "@
                    + short_text(hub_link.bps as nat) + (if hub_link.bps <= 480_000_000 {
                    "; move it to a USB 3 port"@
                } else {
                    ""@
                }),
                Some(Reason::Usb2OnlyHostPort) => "this host port is USB 2 only; move it to a USB 3 port"@,
                Some(Reason::SuperSpeedSideEmpty { peer_port }) => "the SuperSpeed side of this connector ("@ + peer_port
                    + ") is empty, so the link came up at USB 2 speed; check the cable or the port"@,
            };
            finding_text(f) == head + mark + ": "@ + why
        }),
{
    reveal_strlit("");
    if let Some(Reason::UpstreamHubLink { hub, hub_link }) = f.cause {
        let text = "the hub above it ("@ + hub + ") is linked at "@ + short_text(hub_link.bps as nat);
        assert(text + ""@ =~= text);
    }
}

/// Whether a row is a hub on one of `parent`'s ports whose other half is not
/// accounted for: it owns a port, it is linked above High Speed where that is
/// asked and otherwise could be but is not, and the port that the kernel
/// pairs with its own holds no present device.
pub open spec fn awaits_its_half(scene: Scene, row: RowFacts, parent: Seq<char>, superspeed: bool) -> bool {
    &&& exists|port: Seq<char>| #[trigger] scene.ports.dom().contains(port) && scene.ports[port].hub == row.name
    &&& attachment(row.name) is Some && (attachment(row.name)->0).0 == parent
    &&& superspeed ==> row.link.bps > 480_000_000
    &&& !superspeed ==> row.link.bps <= 480_000_000 && row.capability is Some && (row.capability->0).speed.bps
        > 480_000_000
    &&& scene.peer_port(row.name) matches Some(port) ==> !holds_a_device(scene, port)
}

proof fn lemma_unclaimed_is(scene: Scene, rows: Seq<RowFacts>, parent: Seq<char>, superspeed: bool)
    ensures
        unclaimed(scene, rows, parent, superspeed) == rows.filter(
            |r: RowFacts| awaits_its_half(scene, r, parent, superspeed),
        ).map_values(|r: RowFacts| r.name),
    decreases rows.len(),
{
    reveal(Seq::filter);
    let pick = |r: RowFacts| awaits_its_half(scene, r, parent, superspeed);
    let name = |r: RowFacts| r.name;
    if rows.len() > 0 {
        lemma_unclaimed_is(scene, rows.drop_last(), parent, superspeed);
        let row = rows.last();
        if let Some(port) = scene.peer_port(row.name) {
            lemma_device_at(scene, port);
        }
        let kept = rows.drop_last().filter(pick);
        assert(pick(row) <==> (superspeed && scene.unclaimed_super(row, parent)) || (!superspeed
            && scene.unclaimed_usb2(row, parent)));
        if pick(row) {
            assert(rows.filter(pick) == kept.push(row));
            assert(kept.push(row).map_values(name) =~= kept.map_values(name).push(row.name));
        } else {
            assert(rows.filter(pick) == kept);
        }
    } else {
        assert(rows.filter(pick).map_values(name) =~= Seq::<Seq<char>>::empty());
    }
}

/// Where the kernel pairs a hub's own port with one that holds a present hub,
/// that hub is its other half. Where it does not, a hub that could link above
/// High Speed has the one hub that awaits its half on the other half of its
/// parent, if the hub itself is the only one that awaits its half on the
/// parent; with none there it is missing, and otherwise it cannot be told. A
/// hub that is absent, already above High Speed, or cannot go there has none.
pub proof fn law_a_half_is_the_only_one_left(scene: Scene, hub: Seq<char>, parent: Seq<char>, number: nat, p: int)
    requires
        attachment(hub) == Some((parent, number)),
        goes_by(scene.rows, p, hub),
    ensures
        ({
            let row = scene.rows[p];
            let here = scene.rows.filter(|r: RowFacts| awaits_its_half(scene, r, parent, false));
            let paired = paired_hub(scene, hub);
            &&& row.link.bps > 480_000_000 ==> half_of(scene, hub) is Missing
            &&& row.link.bps <= 480_000_000 && paired is Some ==> half_of(scene, hub) == HalfFacts::Known(paired->0)
            &&& row.link.bps <= 480_000_000 && paired is None && (row.capability is None || (
            row.capability->0).speed.bps <= 480_000_000) ==> half_of(scene, hub) is Missing
            &&& row.link.bps <= 480_000_000 && paired is None && row.capability is Some && (
            row.capability->0).speed.bps > 480_000_000 ==> match half_of(scene, parent) {
                HalfFacts::Missing => half_of(scene, hub) is Missing,
                HalfFacts::Ambiguous => half_of(scene, hub) is Ambiguous,
                HalfFacts::Known(above) => {
                    let there = scene.rows.filter(|r: RowFacts| awaits_its_half(scene, r, above, true));
                    &&& there.len() == 0 ==> half_of(scene, hub) is Missing
                    &&& there.len() == 1 && here.len() == 1 && here[0].name == hub ==> half_of(scene, hub)
                        == HalfFacts::Known(there[0].name)
                    &&& there.len() > 0 && !(there.len() == 1 && here.len() == 1 && here[0].name == hub) ==> half_of(
                        scene,
                        hub,
                    ) is Ambiguous
                },
            }
        }),
        is_absent(scene.rows, parent) ==> half_of(scene, parent) is Missing,
{
    lemma_goes_by(scene.rows, p, hub);
    let k = lemma_row_named(scene.rows, parent);
    lemma_unclaimed_is(scene, scene.rows, parent, false);
    if let HalfFacts::Known(above) = half_of(scene, parent) {
        lemma_unclaimed_is(scene, scene.rows, above, true);
    }
}

/// The hub that the kernel pairs with a hub is the present device on the port
/// that names the hub's own port back, when it owns a port itself.
pub proof fn law_a_paired_hub_stands_on_the_peer_port(scene: Scene, hub: Seq<char>, other: Seq<char>)
    ensures
        paired_hub(scene, hub) == Some(other) <==> exists|port: Seq<char>|
            #![trigger scene.ports.dom().contains(port)]
            scene.peer_port(hub) == Some(port) && scene.ports.dom().contains(port) && device_on(
                scene.ports[port].hub,
                scene.ports[port].number,
            ) == Some(other) && !is_absent(scene.rows, other) && exists|own: Seq<char>| #[trigger]
                scene.ports.dom().contains(own) && scene.ports[own].hub == other,
        scene.peer_port(hub) matches Some(port) ==> attachment(hub) is Some && ({
            let own = (attachment(hub)->0).0 + "-port"@ + decimal((attachment(hub)->0).1);
            scene.ports.dom().contains(own) && scene.ports[own].peer == Some(port) && scene.ports.dom().contains(port)
                && scene.ports[port].peer == Some(own)
        }),
{
    let k = lemma_row_named(scene.rows, other);
    if let Some(port) = scene.peer_port(hub) {
        if scene.ports.dom().contains(port) {
            if let Some(name) = device_on(scene.ports[port].hub, scene.ports[port].number) {
                let i = lemma_row_named(scene.rows, name);
            }
        }
    }
}

proof fn lemma_first_peer_hub_from(
    scene: Scene,
    listing: Seq<(Seq<char>, crate::connector::PortFacts)>,
    hub: Seq<char>,
)
    ensures
        match first_peer_hub(scene, listing, hub) {
            Some(half) => exists|i: int|
                0 <= i < listing.len() && (#[trigger] listing[i]).1.hub == hub && (crate::connector::reciprocal(
                    scene.ports,
                    listing[i].0,
                ) matches Some(peer) && scene.ports[peer].hub == half),
            None => forall|i: int|
                0 <= i < listing.len() && (#[trigger] listing[i]).1.hub == hub ==> (crate::connector::reciprocal(
                    scene.ports,
                    listing[i].0,
                ) matches Some(peer) ==> is_absent(scene.rows, scene.ports[peer].hub)),
        },
    decreases listing.len(),
{
    if listing.len() > 0 {
        let t = listing.skip(1);
        lemma_first_peer_hub_from(scene, t, hub);
        if let Some(peer) = crate::connector::reciprocal(scene.ports, listing[0].0) {
            let k = lemma_row_named(scene.rows, scene.ports[peer].hub);
        }
        match peer_hub_of(scene, listing[0], hub) {
            Some(h) => {
                assert(listing[0].1.hub == hub);
            },
            None => {
                match first_peer_hub(scene, t, hub) {
                    Some(half) => {
                        let i = choose|i: int|
                            0 <= i < t.len() && (#[trigger] t[i]).1.hub == hub && (crate::connector::reciprocal(
                                scene.ports,
                                t[i].0,
                            ) matches Some(peer) && scene.ports[peer].hub == half);
                        assert(listing[i + 1] == t[i]);
                    },
                    None => {
                        assert forall|i: int| 0 <= i < listing.len() && (#[trigger] listing[i]).1.hub == hub implies (
                        crate::connector::reciprocal(scene.ports, listing[i].0) matches Some(peer) ==> is_absent(
                            scene.rows,
                            scene.ports[peer].hub,
                        )) by {
                            if i > 0 {
                                assert(t[i - 1] == listing[i]);
                            }
                        }
                    },
                }
            },
        }
    }
}

/// The other half of a root hub is a present hub that owns a port paired with
/// one of the root hub's own; a root hub none of whose ports is paired with a
/// present hub's has none.
pub proof fn law_a_root_hub_is_paired_by_its_ports(scene: Scene, hub: Seq<char>, p: int)
    requires
        attachment(hub) is None,
        goes_by(scene.rows, p, hub),
        scene.rows[p].link.bps <= 480_000_000,
    ensures
        match half_of(scene, hub) {
            HalfFacts::Known(half) => !is_absent(scene.rows, half) && exists|i: int|
                0 <= i < scene.listing.len() && (#[trigger] scene.listing[i]).1.hub == hub && (
                crate::connector::reciprocal(scene.ports, scene.listing[i].0) matches Some(peer)
                    && scene.ports[peer].hub == half),
            HalfFacts::Missing => forall|i: int|
                0 <= i < scene.listing.len() && (#[trigger] scene.listing[i]).1.hub == hub ==> (
                crate::connector::reciprocal(scene.ports, scene.listing[i].0) matches Some(peer) ==> is_absent(
                    scene.rows,
                    scene.ports[peer].hub,
                )),
            HalfFacts::Ambiguous => false,
        },
{
    lemma_goes_by(scene.rows, p, hub);
    lemma_first_peer_hub(scene, scene.listing, hub);
    lemma_first_peer_hub_from(scene, scene.listing, hub);
}

proof fn lemma_verdicts_len(scene: Scene, rows: Seq<RowFacts>, buses: Seq<UsbBus>)
    ensures
        verdicts(scene, rows, buses).len() == rows.filter(
            |r: RowFacts| verdict(scene, r, speed_of_bus(buses, r.bus)) is Some,
        ).len(),
    decreases rows.len(),
{
    reveal(Seq::filter);
    if rows.len() > 0 {
        lemma_verdicts_len(scene, rows.drop_last(), buses);
    }
}

/// There are as many findings as present devices that something is to be said
/// of: none is called out twice.
pub proof fn law_no_device_is_called_out_twice(buses: Seq<UsbBus>, ports: PortIndex)
    ensures
        analysis(buses, ports).len() == scene_of(buses, ports).rows.filter(
            |r: RowFacts| verdict(scene_of(buses, ports), r, speed_of_bus(buses, r.bus)) is Some,
        ).len(),
        scene_of(buses, ports).rows.len() == rows_of(buses).len(),
{
    lemma_verdicts_len(scene_of(buses, ports), scene_of(buses, ports).rows, buses);
    lemma_sorted(rows_of(buses), by_address());
}

} // verus!
