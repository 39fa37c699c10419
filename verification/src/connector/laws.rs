//! What the connector index promises: it holds exactly the port objects that
//! the device directories hold, and pairs the two sides of a connector
//! whenever both say so.

use vstd::prelude::*;

use crate::number::{decimal, lemma_decimal_round_trip, read_uint};
use crate::sysfs::Node;

use super::{
    attachment, connector, device_entries, own_port_number, peer_of, port_text, ports_in, ports_of_devices,
    ports_under, position_of, PortFacts,
};

verus! {

/// Whether the entry at `c` and `e` of a device directory is a port object
/// called `name`: it lies in a directory with a colon in its name, and its
/// own name is the device's, `-port` and a number.
pub open spec fn is_port_of(device: Node, c: int, e: int, name: Seq<char>) -> bool {
    &&& 0 <= c < device.children().len()
    &&& device.children()[c].name@.contains(':')
    &&& 0 <= e < device.children()[c].children().len()
    &&& device.children()[c].children()[e].name@ == name
    &&& own_port_number(device.name@, name) is Some
}

/// Whether one of the devices has a port object called `name`.
pub open spec fn has_port(devices: Seq<Node>, name: Seq<char>) -> bool {
    exists|d: int, c: int, e: int| 0 <= d < devices.len() && #[trigger] is_port_of(devices[d], c, e, name)
}

/// Whether what an index holds of a port comes from one of the devices.
pub open spec fn comes_from(devices: Seq<Node>, name: Seq<char>, facts: PortFacts) -> bool {
    exists|d: int, c: int, e: int|
        0 <= d < devices.len() && #[trigger] is_port_of(devices[d], c, e, name) && facts.hub == devices[d].name@
            && own_port_number(devices[d].name@, name) == Some(facts.number) && facts.peer == peer_of(
            devices[d].children()[c].children()[e],
        )
}

/// The number of a port object is what its name writes behind its hub's name
/// and `-port`, and a name that does not start with those has none.
pub proof fn law_a_port_object_is_numbered_by_its_name(hub: Seq<char>, number: nat, name: Seq<char>)
    requires
        number <= u32::MAX,
    ensures
        own_port_number(hub, hub + "-port"@ + decimal(number)) == Some(number),
        port_text(hub, number) == hub + "-port"@ + decimal(number),
        own_port_number(hub, name) is Some ==> exists|digits: Seq<char>|
            name == hub + "-port"@ + digits && #[trigger] read_uint(digits, 10, u32::MAX as nat) == own_port_number(
                hub,
                name,
            ),
{
    let prefix = hub + "-port"@;
    let own = hub + "-port"@ + decimal(number);
    lemma_decimal_round_trip(number);
    assert(own.take(prefix.len() as int) =~= prefix);
    assert(own.skip(prefix.len() as int) =~= decimal(number));
    if own_port_number(hub, name) is Some {
        let digits = name.skip(prefix.len() as int);
        assert(name =~= name.take(prefix.len() as int) + digits);
        assert(read_uint(digits, 10, u32::MAX as nat) == own_port_number(hub, name));
    }
}

proof fn lemma_ports_in(found: Map<Seq<char>, PortFacts>, device: Seq<char>, entries: Seq<Node>, name: Seq<char>)
    ensures
        ({
            let after = ports_in(found, device, entries);
            let here = exists|e: int|
                0 <= e < entries.len() && (#[trigger] entries[e]).name@ == name && own_port_number(device, name) is Some;
            &&& after.dom().contains(name) <==> found.dom().contains(name) || here
            &&& !here && found.dom().contains(name) ==> after[name] == found[name]
            &&& here ==> exists|e: int|
                0 <= e < entries.len() && (#[trigger] entries[e]).name@ == name && after[name] == (PortFacts {
                    hub: device,
                    number: own_port_number(device, name)->0,
                    peer: peer_of(entries[e]),
                })
        }),
    decreases entries.len(),
{
    if entries.len() > 0 {
        let front = entries.drop_last();
        lemma_ports_in(found, device, front, name);
        let last = entries.last();
        let after = ports_in(found, device, entries);
        if last.name@ == name && own_port_number(device, name) is Some {
            assert(entries[entries.len() - 1].name@ == name);
        } else {
            if exists|e: int|
                0 <= e < entries.len() && (#[trigger] entries[e]).name@ == name && own_port_number(device, name) is Some {
                let e = choose|e: int|
                    0 <= e < entries.len() && (#[trigger] entries[e]).name@ == name && own_port_number(
                        device,
                        name,
                    ) is Some;
                assert(front[e].name@ == name);
                let k = choose|k: int|
                    0 <= k < front.len() && (#[trigger] front[k]).name@ == name && ports_in(found, device, front)[name]
                        == (PortFacts {
                        hub: device,
                        number: own_port_number(device, name)->0,
                        peer: peer_of(front[k]),
                    });
                assert(entries[k] == front[k]);
            }
            if exists|e: int|
                0 <= e < front.len() && (#[trigger] front[e]).name@ == name && own_port_number(device, name) is Some {
                let e = choose|e: int|
                    0 <= e < front.len() && (#[trigger] front[e]).name@ == name && own_port_number(device, name) is Some;
                assert(entries[e].name@ == name);
            }
        }
    }
}

/// What the children of one device contribute.
spec fn under(device: Node, n: int, name: Seq<char>) -> bool {
    exists|c: int, e: int| 0 <= c < n && #[trigger] is_port_of(device, c, e, name)
}

spec fn under_with(device: Node, n: int, name: Seq<char>, facts: PortFacts) -> bool {
    exists|c: int, e: int|
        0 <= c < n && #[trigger] is_port_of(device, c, e, name) && facts == (PortFacts {
            hub: device.name@,
            number: own_port_number(device.name@, name)->0,
            peer: peer_of(device.children()[c].children()[e]),
        })
}

proof fn lemma_ports_under(found: Map<Seq<char>, PortFacts>, device: Node, n: int, name: Seq<char>)
    requires
        0 <= n <= device.children().len(),
    ensures
        ({
            let after = ports_under(found, device.name@, device.children().take(n));
            &&& after.dom().contains(name) <==> found.dom().contains(name) || under(device, n, name)
            &&& !under(device, n, name) && found.dom().contains(name) ==> after[name] == found[name]
            &&& under(device, n, name) ==> under_with(device, n, name, after[name])
        }),
    decreases n,
{
    let children = device.children().take(n);
    if n > 0 {
        assert(children.drop_last() =~= device.children().take(n - 1));
        let child = children.last();
        assert(child == device.children()[n - 1]);
        lemma_ports_under(found, device, n - 1, name);
        let before = ports_under(found, device.name@, children.drop_last());
        lemma_ports_in(before, device.name@, child.children(), name);
        let after = ports_under(found, device.name@, children);
        let here = child.name@.contains(':') && exists|e: int|
            0 <= e < child.children().len() && (#[trigger] child.children()[e]).name@ == name && own_port_number(
                device.name@,
                name,
            ) is Some;
        if here {
            let e = choose|e: int|
                0 <= e < child.children().len() && (#[trigger] child.children()[e]).name@ == name && after[name] == (
                PortFacts {
                    hub: device.name@,
                    number: own_port_number(device.name@, name)->0,
                    peer: peer_of(child.children()[e]),
                });
            assert(is_port_of(device, n - 1, e, name));
        } else {
            if under(device, n, name) {
                let (c, e) = choose|c: int, e: int| 0 <= c < n && #[trigger] is_port_of(device, c, e, name);
                if c == n - 1 {
                    assert(child.children()[e].name@ == name);
                }
                assert(is_port_of(device, c, e, name));
                assert(under(device, n - 1, name));
                let (c2, e2) = choose|c: int, e: int|
                    0 <= c < n - 1 && #[trigger] is_port_of(device, c, e, name) && before[name] == (PortFacts {
                        hub: device.name@,
                        number: own_port_number(device.name@, name)->0,
                        peer: peer_of(device.children()[c].children()[e]),
                    });
                assert(is_port_of(device, c2, e2, name));
            }
            if under(device, n - 1, name) {
                let (c, e) = choose|c: int, e: int| 0 <= c < n - 1 && #[trigger] is_port_of(device, c, e, name);
                assert(is_port_of(device, c, e, name));
            }
        }
    }
}

/// A scan finds exactly the port objects that the device directories hold:
/// each under its hub, with the number that its name gives and the companion
/// that its `peer` link names.
pub proof fn law_a_scan_finds_exactly_the_port_objects(devices: Seq<Node>, name: Seq<char>)
    ensures
        ports_of_devices(devices).dom().contains(name) <==> has_port(devices, name),
        has_port(devices, name) ==> comes_from(devices, name, ports_of_devices(devices)[name]),
    decreases devices.len(),
{
    if devices.len() > 0 {
        let front = devices.drop_last();
        let last = devices.last();
        law_a_scan_finds_exactly_the_port_objects(front, name);
        let found = ports_of_devices(front);
        let n = last.children().len() as int;
        assert(last.children().take(n) =~= last.children());
        lemma_ports_under(found, last, n, name);
        let after = ports_of_devices(devices);
        if under(last, n, name) {
            let (c, e) = choose|c: int, e: int|
                0 <= c < n && #[trigger] is_port_of(last, c, e, name) && after[name] == (PortFacts {
                    hub: last.name@,
                    number: own_port_number(last.name@, name)->0,
                    peer: peer_of(last.children()[c].children()[e]),
                });
            assert(is_port_of(devices[devices.len() - 1], c, e, name));
        } else {
            if has_port(devices, name) {
                let (d, c, e) = choose|d: int, c: int, e: int|
                    0 <= d < devices.len() && #[trigger] is_port_of(devices[d], c, e, name);
                if d == devices.len() - 1 {
                    assert(is_port_of(last, c, e, name));
                }
                assert(is_port_of(front[d], c, e, name));
                let (d2, c2, e2) = choose|d: int, c: int, e: int|
                    0 <= d < front.len() && #[trigger] is_port_of(front[d], c, e, name) && found[name].hub
                        == front[d].name@ && own_port_number(front[d].name@, name) == Some(found[name].number)
                        && found[name].peer == peer_of(front[d].children()[c].children()[e]);
                assert(is_port_of(devices[d2], c2, e2, name));
            }
            if has_port(front, name) {
                let (d, c, e) = choose|d: int, c: int, e: int|
                    0 <= d < front.len() && #[trigger] is_port_of(front[d], c, e, name);
                assert(is_port_of(devices[d], c, e, name));
            }
        }
    }
}

/// The entries that are looked at are exactly those without a colon in their
/// name, in their order.
pub proof fn law_devices_are_the_entries_without_a_colon(base: Seq<Node>)
    ensures
        device_entries(base) == base.filter(|n: Node| !n.name@.contains(':')),
    decreases base.len(),
{
    reveal(Seq::filter);
    if base.len() > 0 {
        law_devices_are_the_entries_without_a_colon(base.drop_last());
    }
}

/// A device's connector pairs its own port with another exactly when the two
/// name each other: a port whose companion does not name it back stands
/// alone.
pub proof fn law_a_connector_is_paired_when_both_sides_say_so(
    ports: Map<Seq<char>, PortFacts>,
    device: Seq<char>,
    hub: Seq<char>,
    number: nat,
    peer: Seq<char>,
)
    requires
        attachment(device) == Some((hub, number)),
        ports.dom().contains(hub + "-port"@ + decimal(number)),
        position_of(ports[hub + "-port"@ + decimal(number)].hub) is Some,
    ensures
        ({
            let own = hub + "-port"@ + decimal(number);
            let mutual = ports[own].peer == Some(peer) && ports.dom().contains(peer) && ports[peer].peer == Some(own);
            &&& connector(ports, device) is Some
            &&& (connector(ports, device)->0).0.name == own
            &&& mutual && position_of(ports[peer].hub) is Some ==> (connector(ports, device)->0).1 is Some && ((
            connector(ports, device)->0).1->0).name == peer
            &&& (connector(ports, device)->0).1 matches Some(q) ==> {
                &&& ports[own].peer == Some(q.name)
                &&& ports.dom().contains(q.name)
                &&& ports[q.name].peer == Some(own)
                &&& position_of(ports[q.name].hub) == Some((q.bus, q.chain.drop_last()))
                &&& q.chain.len() > 0 && q.chain.last() == ports[q.name].number
            }
        }),
{
    let own = port_text(hub, number);
    assert(own == hub + "-port"@ + decimal(number));
    if let Some(q) = (connector(ports, device)->0).1 {
        let chain = (position_of(ports[q.name].hub)->0).1;
        assert(chain.push(ports[q.name].number).drop_last() =~= chain);
    }
}

} // verus!
