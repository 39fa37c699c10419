//! What an inventory promises: every device directory is listed with what its
//! own files say, and every controller with the buses of its root hubs.

use vstd::prelude::*;

use crate::connector::device_entries;
use crate::connector::laws::law_devices_are_the_entries_without_a_colon;
use crate::device::text_of;
use crate::diag::files::{by_entry_name, in_order, value_named, value_of};
use crate::number::read_uint;
use crate::order::{is_order, lemma_lex_total, lemma_lex_transitive, lemma_rank, lemma_sorted, rank, sorted_by};
use crate::sysfs::{Content, Node};
use crate::text::{starts, trim_blanks};
use crate::usbids::UsbIds;

use super::{
    buses_of, controller_entry, describes, device_nodes, endpoint_entry, endpoints_among, hub_controllers,
    interface_entry, interfaces_among, lists_controllers, port_entry, ports_among, tells_inventory, ControllerInfo,
    HubFacts, UsbDeviceInfo, UsbInventory, UsbidsInfo,
};

verus! {

proof fn lemma_entry_order()
    ensures
        is_order(by_entry_name()),
{
    let le = by_entry_name();
    assert forall|a: Node, b: Node| #[trigger] le(a, b) || le(b, a) by {
        lemma_lex_total(a.name@, b.name@);
    }
    assert forall|a: Node, b: Node, c: Node| #[trigger] le(a, b) && #[trigger] le(b, c) implies le(a, c) by {
        if a.name@ != b.name@ && b.name@ != c.name@ {
            lemma_lex_transitive(a.name@, b.name@, c.name@);
        }
    }
}

proof fn lemma_in_order(entries: Seq<Node>, n: Node)
    ensures
        in_order(entries).contains(n) <==> entries.contains(n),
        in_order(entries).len() == entries.len(),
{
    broadcast use vstd::seq_lib::group_to_multiset_ensures;

    lemma_entry_order();
    lemma_sorted(entries, by_entry_name());
    let t = in_order(entries);
    assert(t.contains(n) <==> t.to_multiset().count(n) > 0);
    assert(entries.contains(n) <==> entries.to_multiset().count(n) > 0);
}

proof fn lemma_device_entries(base: Seq<Node>, n: Node)
    ensures
        device_entries(base).contains(n) <==> base.contains(n) && !n.name@.contains(':'),
    decreases base.len(),
{
    if base.len() > 0 {
        let front = base.drop_last();
        lemma_device_entries(front, n);
        let kept = device_entries(front);
        let all = device_entries(base);
        if all.contains(n) {
            let i = choose|i: int| 0 <= i < all.len() && all[i] == n;
            if i < kept.len() {
                assert(kept[i] == n);
                let k = choose|k: int| 0 <= k < front.len() && front[k] == n;
                assert(base[k] == n);
            } else {
                assert(base[base.len() - 1] == n);
            }
        }
        if base.contains(n) && !n.name@.contains(':') {
            let k = choose|k: int| 0 <= k < base.len() && base[k] == n;
            if k < front.len() {
                assert(front[k] == n);
                assert(kept.contains(n));
                let i = choose|i: int| 0 <= i < kept.len() && kept[i] == n;
                assert(all[i] == n);
            } else {
                assert(all[all.len() - 1] == n);
            }
        }
    }
}

/// Whether `info` tells what the files of a directory say.
pub open spec fn tells_files(info: UsbDeviceInfo, node: Node) -> bool {
    let c = node.children();
    &&& info.port_chain@ == node.name@
    &&& text_of(info.id_vendor) == value_named(c, "idVendor"@)
    &&& text_of(info.id_product) == value_named(c, "idProduct"@)
    &&& text_of(info.bcd_device) == value_named(c, "bcdDevice"@)
    &&& text_of(info.serial) == value_named(c, "serial"@)
    &&& text_of(info.manufacturer) == value_named(c, "manufacturer"@)
    &&& text_of(info.product) == value_named(c, "product"@)
    &&& text_of(info.device_class) == value_named(c, "bDeviceClass"@)
    &&& text_of(info.device_subclass) == value_named(c, "bDeviceSubClass"@)
    &&& text_of(info.device_protocol) == value_named(c, "bDeviceProtocol"@)
    &&& text_of(info.bcd_usb) == value_named(c, "version"@)
    &&& text_of(info.speed) == value_named(c, "speed"@)
    &&& text_of(info.max_packet_size0) == value_named(c, "bMaxPacketSize0"@)
    &&& text_of(info.num_configurations) == value_named(c, "bNumConfigurations"@)
    &&& text_of(info.configuration_value) == value_named(c, "bConfigurationValue"@)
    &&& text_of(info.num_interfaces) == value_named(c, "bNumInterfaces"@)
    &&& text_of(info.bm_attributes) == value_named(c, "bmAttributes"@)
    &&& text_of(info.max_power) == value_named(c, "bMaxPower"@)
    &&& text_of(info.quirks) == value_named(c, "quirks"@)
    &&& text_of(info.avoid_reset_quirk) == value_named(c, "avoid_reset_quirk"@)
    &&& text_of(info.ltm_capable) == value_named(c, "ltm_capable"@)
    &&& text_of(info.rx_lanes) == value_named(c, "rx_lanes"@)
    &&& text_of(info.tx_lanes) == value_named(c, "tx_lanes"@)
    &&& text_of(info.maxchild) == value_named(c, "maxchild"@)
    &&& text_of(info.urbnum) == value_named(c, "urbnum"@)
    &&& text_of(info.authorized) == value_named(c, "authorized"@)
    &&& text_of(info.removable) == value_named(c, "removable"@)
    &&& value_named(c, "busnum"@) is None ==> info.bus is None
    &&& value_named(c, "busnum"@) matches Some(t) ==> (read_uint(t, 10, 255) matches Some(n) ==> info.bus == Some(
        n as u8,
    ))
    &&& value_named(c, "devnum"@) matches Some(t) ==> (read_uint(t, 10, 255) matches Some(n) ==> info.devnum == Some(
        n as u8,
    ))
}

/// Every device directory of a tree that could be read is in its inventory
/// with what its own files say, and the inventory holds nothing else.
pub proof fn law_an_inventory_lists_every_device(
    r: UsbInventory,
    said: Seq<crate::diag::NoteFacts>,
    base: Seq<char>,
    entries: Vec<Node>,
    parents: Seq<Node>,
    usbids: Option<UsbIds>,
    info: UsbidsInfo,
    k: int,
)
    requires
        tells_inventory(r, said, base, Ok(&entries), parents, usbids, info),
    ensures
        0 <= k < entries@.len() && !entries@[k].name@.contains(':') ==> exists|i: int|
            0 <= i < r.devices@.len() && tells_files(#[trigger] r.devices@[i], entries@[k]),
        0 <= k < r.devices@.len() ==> exists|j: int|
            0 <= j < entries@.len() && !(#[trigger] entries@[j]).name@.contains(':') && tells_files(
                r.devices@[k],
                entries@[j],
            ),
        r.devices@.len() == in_order(entries@).filter(|n: Node| !n.name@.contains(':')).len(),
        said.len() == 0,
{
    let nodes = device_nodes(entries@);
    let ordered = in_order(entries@);
    law_devices_are_the_entries_without_a_colon(ordered);
    if 0 <= k < entries@.len() && !entries@[k].name@.contains(':') {
        let node = entries@[k];
        assert(entries@.contains(node));
        lemma_in_order(entries@, node);
        lemma_device_entries(ordered, node);
        assert(nodes.contains(node));
        let i = choose|i: int| 0 <= i < nodes.len() && nodes[i] == node;
        assert(describes(r.devices@[i], nodes[i], usbids));
        assert(tells_files(r.devices@[i], entries@[k]));
    }
    if 0 <= k < r.devices@.len() {
        let node = nodes[k];
        assert(describes(r.devices@[k], nodes[k], usbids));
        assert(nodes.contains(node));
        lemma_device_entries(ordered, node);
        lemma_in_order(entries@, node);
        let j = choose|j: int| 0 <= j < entries@.len() && entries@[j] == node;
        assert(tells_files(r.devices@[k], entries@[j]));
    }
}

/// A value holds no NUL and is never empty: it is its file's text without the
/// blanks and NULs around it, and with spaces for the NULs inside.
pub proof fn law_a_value_is_its_files_text(text: String)
    ensures
        value_of(Content::Text(text)) is Some <==> trim_blanks(text@, true).len() > 0,
        value_of(Content::Text(text)) matches Some(v) ==> {
            let t = trim_blanks(text@, true);
            &&& v.len() == t.len()
            &&& forall|i: int| 0 <= i < v.len() ==> (#[trigger] v[i]) != '\0'
            &&& forall|i: int| 0 <= i < v.len() && t[i] != '\0' ==> #[trigger] v[i] == t[i]
            &&& forall|i: int| 0 <= i < v.len() && t[i] == '\0' ==> #[trigger] v[i] == ' '
        },
        value_of(Content::Absent) is None,
{
}

/// The interfaces of a device are its entries with a colon in their name, the
/// endpoints of one those that start with `ep_`, and the ports of a hub those
/// that start with its name and `-port`, each in order.
pub proof fn law_parts_are_told_by_their_names(nodes: Seq<Node>, device: Seq<char>)
    ensures
        interfaces_among(nodes) == nodes.filter(|n: Node| n.name@.contains(':')).map_values(
            |n: Node| interface_entry(n),
        ),
        endpoints_among(nodes) == nodes.filter(|n: Node| starts(n.name@, "ep_"@)).map_values(
            |n: Node| endpoint_entry(n),
        ),
        ports_among(nodes, device) == nodes.filter(|n: Node| starts(n.name@, device + "-port"@)).map_values(
            |n: Node| port_entry(n),
        ),
    decreases nodes.len(),
{
    reveal(Seq::filter);
    let fi = |n: Node| interface_entry(n);
    let fe = |n: Node| endpoint_entry(n);
    let fp = |n: Node| port_entry(n);
    let ci = |n: Node| n.name@.contains(':');
    let ce = |n: Node| starts(n.name@, "ep_"@);
    let cp = |n: Node| starts(n.name@, device + "-port"@);
    if nodes.len() > 0 {
        let front = nodes.drop_last();
        let last = nodes.last();
        law_parts_are_told_by_their_names(front, device);
        if ci(last) {
            assert(front.filter(ci).push(last).map_values(fi) =~= front.filter(ci).map_values(fi).push(fi(last)));
        }
        if ce(last) {
            assert(front.filter(ce).push(last).map_values(fe) =~= front.filter(ce).map_values(fe).push(fe(last)));
        }
        if cp(last) {
            assert(front.filter(cp).push(last).map_values(fp) =~= front.filter(cp).map_values(fp).push(fp(last)));
        }
    } else {
        assert(nodes.filter(ci).map_values(fi) =~= interfaces_among(nodes));
        assert(nodes.filter(ce).map_values(fe) =~= endpoints_among(nodes));
        assert(nodes.filter(cp).map_values(fp) =~= ports_among(nodes, device));
    }
}

/// An interface, an endpoint and a port tell what the files of their own
/// directory say.
pub proof fn law_a_part_tells_its_own_files(node: Node)
    ensures
        ({
            let c = node.children();
            let i = interface_entry(node);
            let e = endpoint_entry(node);
            let p = port_entry(node);
            &&& i.name == node.name@ && e.name == node.name@ && p.name == node.name@
            &&& i.number == value_named(c, "bInterfaceNumber"@)
            &&& i.alt_setting == value_named(c, "bAlternateSetting"@)
            &&& i.class == value_named(c, "bInterfaceClass"@)
            &&& i.subclass == value_named(c, "bInterfaceSubClass"@)
            &&& i.protocol == value_named(c, "bInterfaceProtocol"@)
            &&& i.num_endpoints == value_named(c, "bNumEndpoints"@)
            &&& i.description == value_named(c, "interface"@)
            &&& e.address == value_named(c, "bEndpointAddress"@)
            &&& e.attributes == value_named(c, "bmAttributes"@)
            &&& e.max_packet_size == value_named(c, "wMaxPacketSize"@)
            &&& e.interval == value_named(c, "bInterval"@)
            &&& e.direction == value_named(c, "direction"@)
            &&& e.kind == value_named(c, "type"@)
            &&& p.connect_type == value_named(c, "connect_type"@)
            &&& p.location == value_named(c, "location"@)
            &&& p.state == value_named(c, "state"@)
            &&& p.over_current_count == value_named(c, "over_current_count"@)
            &&& p.quirks == value_named(c, "quirks"@)
        }),
{
}

proof fn lemma_buses_of(hubs: Seq<HubFacts>, controller: Seq<char>, bus: u8)
    ensures
        buses_of(hubs, controller).contains(bus) <==> exists|i: int|
            0 <= i < hubs.len() && (#[trigger] hubs[i]).controller == controller && hubs[i].bus == bus,
    decreases hubs.len(),
{
    if hubs.len() > 0 {
        let front = hubs.drop_last();
        lemma_buses_of(front, controller, bus);
        let kept = buses_of(front, controller);
        let all = buses_of(hubs, controller);
        if all.contains(bus) {
            let i = choose|i: int| 0 <= i < all.len() && all[i] == bus;
            if i < kept.len() {
                assert(kept[i] == bus);
                let k = choose|k: int|
                    0 <= k < front.len() && (#[trigger] front[k]).controller == controller && front[k].bus == bus;
                assert(hubs[k] == front[k]);
            } else {
                assert(hubs[hubs.len() - 1].controller == controller);
            }
        }
        if exists|i: int| 0 <= i < hubs.len() && (#[trigger] hubs[i]).controller == controller && hubs[i].bus == bus {
            let i = choose|i: int|
                0 <= i < hubs.len() && (#[trigger] hubs[i]).controller == controller && hubs[i].bus == bus;
            if i < front.len() {
                assert(front[i] == hubs[i]);
                let k = choose|k: int| 0 <= k < kept.len() && kept[k] == bus;
                assert(all[k] == bus);
            } else {
                assert(all[all.len() - 1] == bus);
            }
        }
    }
}

/// The controllers of an inventory are those that root hubs name, and each has
/// exactly the buses of the root hubs that name it.
pub proof fn law_a_controller_has_the_buses_of_its_root_hubs(
    v: Seq<ControllerInfo>,
    hubs: Seq<HubFacts>,
    i: int,
    bus: u8,
)
    requires
        lists_controllers(v, hubs),
        0 <= i < v.len(),
    ensures
        v[i].buses@.contains(bus) <==> exists|k: int|
            0 <= k < hubs.len() && (#[trigger] hubs[k]).controller == v[i].name@ && hubs[k].bus == bus,
        exists|k: int| 0 <= k < hubs.len() && (#[trigger] hubs[k]).controller == v[i].name@,
        forall|k: int|
            0 <= k < hubs.len() ==> exists|j: int| 0 <= j < v.len() && (#[trigger] v[j]).name@ == (
            #[trigger] hubs[k]).controller,
{
    broadcast use vstd::seq_lib::group_to_multiset_ensures;

    let name = v[i].name@;
    lemma_buses_of(hubs, name, bus);
    lemma_rank::<u8>();
    lemma_sorted(buses_of(hubs, name), rank::<u8>());
    assert(v[i]@ == controller_entry(hubs, name));
    let ordered = sorted_by(buses_of(hubs, name), rank::<u8>());
    assert(v[i].buses@ == ordered);
    assert(ordered.contains(bus) <==> ordered.to_multiset().count(bus) > 0);
    assert(buses_of(hubs, name).contains(bus) <==> buses_of(hubs, name).to_multiset().count(bus) > 0);
    let names = v.map_values(|c: ControllerInfo| c.name@);
    assert(names[i] == name);
    assert(names.contains(name));
    assert(hub_controllers(hubs).contains(name));
    let k = choose|k: int| 0 <= k < hub_controllers(hubs).len() && hub_controllers(hubs)[k] == name;
    assert(hubs[k].controller == name);
    assert forall|k: int| 0 <= k < hubs.len() implies exists|j: int|
        0 <= j < v.len() && (#[trigger] v[j]).name@ == (#[trigger] hubs[k]).controller by {
        assert(hub_controllers(hubs)[k] == hubs[k].controller);
        assert(hub_controllers(hubs).contains(hubs[k].controller));
        assert(names.contains(hubs[k].controller));
        let j = choose|j: int| 0 <= j < names.len() && names[j] == hubs[k].controller;
        assert(v[j].name@ == hubs[k].controller);
    }
}

} // verus!
