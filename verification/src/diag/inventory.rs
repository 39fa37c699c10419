//! The full self-description of every USB controller, hub, dock and device,
//! stored verbatim (serial strings are part of it: device identity is what a
//! maintainer needs to tell a clone from the real thing, and the reporter
//! reviews the file list before attaching). Also the raw descriptor blobs and
//! attribute dumps of the Thunderbolt and Type-C trees.

pub mod laws;

use vstd::prelude::*;

use crate::capture::meta::{is_digest, sorted_unique};
use crate::capture::sysfs::{is_root_hub, names_root_hub};
use crate::device::manager::{enclosing_dir, enclosing_name};
use crate::device::text_of;
use crate::connector::device_entries;
use crate::diag::collect::opt_view;
use crate::diag::files::{attr, in_order, link_name, link_named, list, nodes_of, value_named, Listed};
use crate::diag::redact::Redactor;
use crate::diag::{note, notes, Note, NoteFacts};
use crate::number::{padded_decimal, parse_uint, read_uint, to_padded_decimal};
use crate::order::{lemma_sorted_mapped, rank, sort, sorted_by, Ranked};
use crate::path::{parent_parts, parts, parts_of};
use crate::sysfs::{entry_named, find_entry, Content, Node};
use crate::text::{
    extend, extend_str, from_chars, has_char, matches_at, occurs_at, slice, starts, starts_with, str_eq,
    string_views, to_chars,
};
use crate::usbids::UsbIds;

verus! {

/// The active usb.ids source.
#[derive(Debug)]
pub struct UsbidsInfo {
    /// Where it is, home paths rewritten.
    pub source: Option<String>,
    /// Its `# Date:` header as `YYYY-MM-DD`.
    pub date: Option<String>,
}

/// A date as `YYYY-MM-DD`.
pub open spec fn date_text(date: (u16, u8, u8)) -> Seq<char> {
    padded_decimal(date.0 as nat, 4) + "-"@ + padded_decimal(date.1 as nat, 2) + "-"@ + padded_decimal(
        date.2 as nat,
        2,
    )
}

/// What is said of the usb.ids file in use.
pub open spec fn tells_usbids(
    r: UsbidsInfo,
    active: Option<Seq<char>>,
    header_date: Option<(u16, u8, u8)>,
    redactor: Redactor,
) -> bool {
    match active {
        None => r.source is None && r.date is None,
        Some(path) => {
            &&& text_of(r.source) == Some(redactor.masks(path).text)
            &&& text_of(r.date) == (match header_date {
                Some(d) => Some(date_text(d)),
                None => None,
            })
        },
    }
}

/// Which usb.ids file name resolution would use, and how old it is.
pub fn usbids_info(
    active: Option<&str>,
    header_date: Option<(u16, u8, u8)>,
    redactor: &mut Redactor,
) -> (r: UsbidsInfo)
    ensures
        tells_usbids(r, opt_view(active), header_date, *old(redactor)),
        *final(redactor) == (match active {
            Some(path) => old(redactor).after(path@),
            None => *old(redactor),
        }),
{
    match active {
        None => UsbidsInfo { source: None, date: None },
        Some(path) => {
            let date = match header_date {
                Some((y, m, d)) => {
                    let mut v = to_padded_decimal(y as u64, 4);
                    extend_str(&mut v, "-");
                    extend(&mut v, &to_padded_decimal(m as u64, 2));
                    extend_str(&mut v, "-");
                    extend(&mut v, &to_padded_decimal(d as u64, 2));
                    Some(from_chars(&v))
                },
                None => None,
            };
            UsbidsInfo { source: Some(redactor.path(path)), date }
        },
    }
}

/// One host controller.
#[derive(Debug)]
pub struct ControllerInfo {
    /// The controller's sysfs name (`0000:06:00.3`, or a platform id).
    pub name: String,
    pub buses: Vec<u8>,
    pub pci_vendor: Option<String>,
    pub pci_device: Option<String>,
    pub pci_revision: Option<String>,
    pub driver: Option<String>,
}

/// One endpoint.
#[derive(Debug)]
pub struct EndpointInfo {
    pub name: String,
    pub address: Option<String>,
    pub attributes: Option<String>,
    pub max_packet_size: Option<String>,
    pub interval: Option<String>,
    pub direction: Option<String>,
    /// The kernel's `type` attribute (`kind` because `type` is reserved).
    pub kind: Option<String>,
}

/// What an `EndpointInfo` says.
pub struct EndpointEntry {
    pub name: Seq<char>,
    pub address: Option<Seq<char>>,
    pub attributes: Option<Seq<char>>,
    pub max_packet_size: Option<Seq<char>>,
    pub interval: Option<Seq<char>>,
    pub direction: Option<Seq<char>>,
    pub kind: Option<Seq<char>>,
}

impl View for EndpointInfo {
    type V = EndpointEntry;

    open spec fn view(&self) -> EndpointEntry {
        EndpointEntry {
            name: self.name@,
            address: text_of(self.address),
            attributes: text_of(self.attributes),
            max_packet_size: text_of(self.max_packet_size),
            interval: text_of(self.interval),
            direction: text_of(self.direction),
            kind: text_of(self.kind),
        }
    }
}

/// An interface association.
#[derive(Debug)]
pub struct IadInfo {
    pub first_interface: Option<String>,
    pub interface_count: Option<String>,
    pub function_class: Option<String>,
    pub function_subclass: Option<String>,
    pub function_protocol: Option<String>,
}

/// What an `IadInfo` says.
pub struct IadEntry {
    pub first_interface: Option<Seq<char>>,
    pub interface_count: Option<Seq<char>>,
    pub function_class: Option<Seq<char>>,
    pub function_subclass: Option<Seq<char>>,
    pub function_protocol: Option<Seq<char>>,
}

impl View for IadInfo {
    type V = IadEntry;

    open spec fn view(&self) -> IadEntry {
        IadEntry {
            first_interface: text_of(self.first_interface),
            interface_count: text_of(self.interface_count),
            function_class: text_of(self.function_class),
            function_subclass: text_of(self.function_subclass),
            function_protocol: text_of(self.function_protocol),
        }
    }
}

/// One interface.
#[derive(Debug)]
pub struct InterfaceInfo {
    pub name: String,
    pub number: Option<String>,
    pub alt_setting: Option<String>,
    pub class: Option<String>,
    pub subclass: Option<String>,
    pub protocol: Option<String>,
    pub num_endpoints: Option<String>,
    /// The `interface` string attribute.
    pub description: Option<String>,
    pub driver: Option<String>,
    pub iad: Option<IadInfo>,
    pub endpoints: Vec<EndpointInfo>,
}

/// What an `InterfaceInfo` says.
pub struct InterfaceEntry {
    pub name: Seq<char>,
    pub number: Option<Seq<char>>,
    pub alt_setting: Option<Seq<char>>,
    pub class: Option<Seq<char>>,
    pub subclass: Option<Seq<char>>,
    pub protocol: Option<Seq<char>>,
    pub num_endpoints: Option<Seq<char>>,
    pub description: Option<Seq<char>>,
    pub driver: Option<Seq<char>>,
    pub iad: Option<IadEntry>,
    pub endpoints: Seq<EndpointEntry>,
}

/// What several endpoints say.
pub open spec fn endpoint_entries(v: Seq<EndpointInfo>) -> Seq<EndpointEntry> {
    v.map_values(|e: EndpointInfo| e@)
}

impl View for InterfaceInfo {
    type V = InterfaceEntry;

    open spec fn view(&self) -> InterfaceEntry {
        InterfaceEntry {
            name: self.name@,
            number: text_of(self.number),
            alt_setting: text_of(self.alt_setting),
            class: text_of(self.class),
            subclass: text_of(self.subclass),
            protocol: text_of(self.protocol),
            num_endpoints: text_of(self.num_endpoints),
            description: text_of(self.description),
            driver: text_of(self.driver),
            iad: match self.iad {
                Some(i) => Some(i@),
                None => None,
            },
            endpoints: endpoint_entries(self.endpoints@),
        }
    }
}

/// One port of a hub.
#[derive(Debug)]
pub struct HubPortInfo {
    pub name: String,
    pub connect_type: Option<String>,
    /// The paired port's name (the `peer` link target's last component).
    pub peer: Option<String>,
    /// The Type-C connector's name when the port has a `connector` link.
    pub connector: Option<String>,
    pub location: Option<String>,
    pub state: Option<String>,
    pub over_current_count: Option<String>,
    pub quirks: Option<String>,
}

/// What a `HubPortInfo` says.
pub struct HubPortEntry {
    pub name: Seq<char>,
    pub connect_type: Option<Seq<char>>,
    pub peer: Option<Seq<char>>,
    pub connector: Option<Seq<char>>,
    pub location: Option<Seq<char>>,
    pub state: Option<Seq<char>>,
    pub over_current_count: Option<Seq<char>>,
    pub quirks: Option<Seq<char>>,
}

impl View for HubPortInfo {
    type V = HubPortEntry;

    open spec fn view(&self) -> HubPortEntry {
        HubPortEntry {
            name: self.name@,
            connect_type: text_of(self.connect_type),
            peer: text_of(self.peer),
            connector: text_of(self.connector),
            location: text_of(self.location),
            state: text_of(self.state),
            over_current_count: text_of(self.over_current_count),
            quirks: text_of(self.quirks),
        }
    }
}

/// The endpoint that a directory describes.
pub open spec fn endpoint_entry(node: Node) -> EndpointEntry {
    let c = node.children();
    EndpointEntry {
        name: node.name@,
        address: value_named(c, "bEndpointAddress"@),
        attributes: value_named(c, "bmAttributes"@),
        max_packet_size: value_named(c, "wMaxPacketSize"@),
        interval: value_named(c, "bInterval"@),
        direction: value_named(c, "direction"@),
        kind: value_named(c, "type"@),
    }
}

/// The endpoints among some entries.
pub open spec fn endpoints_among(nodes: Seq<Node>) -> Seq<EndpointEntry>
    decreases nodes.len(),
{
    if nodes.len() == 0 {
        Seq::empty()
    } else if starts(nodes.last().name@, "ep_"@) {
        endpoints_among(nodes.drop_last()).push(endpoint_entry(nodes.last()))
    } else {
        endpoints_among(nodes.drop_last())
    }
}

/// The association that an interface is part of.
pub open spec fn iad_entry(c: Seq<Node>) -> Option<IadEntry> {
    match value_named(c, "iad_bFirstInterface"@) {
        Some(first) => Some(
            (IadEntry {
                first_interface: Some(first),
                interface_count: value_named(c, "iad_bInterfaceCount"@),
                function_class: value_named(c, "iad_bFunctionClass"@),
                function_subclass: value_named(c, "iad_bFunctionSubClass"@),
                function_protocol: value_named(c, "iad_bFunctionProtocol"@),
            }),
        ),
        None => None,
    }
}

/// The interface that a directory describes.
pub open spec fn interface_entry(node: Node) -> InterfaceEntry {
    let c = node.children();
    InterfaceEntry {
        name: node.name@,
        number: value_named(c, "bInterfaceNumber"@),
        alt_setting: value_named(c, "bAlternateSetting"@),
        class: value_named(c, "bInterfaceClass"@),
        subclass: value_named(c, "bInterfaceSubClass"@),
        protocol: value_named(c, "bInterfaceProtocol"@),
        num_endpoints: value_named(c, "bNumEndpoints"@),
        description: value_named(c, "interface"@),
        driver: link_named(c, "driver"@),
        iad: iad_entry(c),
        endpoints: endpoints_among(in_order(c)),
    }
}

/// The interfaces among some entries: those whose name carries a `:`.
pub open spec fn interfaces_among(nodes: Seq<Node>) -> Seq<InterfaceEntry>
    decreases nodes.len(),
{
    if nodes.len() == 0 {
        Seq::empty()
    } else if nodes.last().name@.contains(':') {
        interfaces_among(nodes.drop_last()).push(interface_entry(nodes.last()))
    } else {
        interfaces_among(nodes.drop_last())
    }
}

/// The port that a directory describes.
pub open spec fn port_entry(node: Node) -> HubPortEntry {
    let c = node.children();
    HubPortEntry {
        name: node.name@,
        connect_type: value_named(c, "connect_type"@),
        peer: link_named(c, "peer"@),
        connector: link_named(c, "connector"@),
        location: value_named(c, "location"@),
        state: value_named(c, "state"@),
        over_current_count: value_named(c, "over_current_count"@),
        quirks: value_named(c, "quirks"@),
    }
}

/// The ports among the entries of an interface directory.
pub open spec fn ports_among(nodes: Seq<Node>, device: Seq<char>) -> Seq<HubPortEntry>
    decreases nodes.len(),
{
    if nodes.len() == 0 {
        Seq::empty()
    } else if starts(nodes.last().name@, device + "-port"@) {
        ports_among(nodes.drop_last(), device).push(port_entry(nodes.last()))
    } else {
        ports_among(nodes.drop_last(), device)
    }
}

/// The ports below the interface directories among some entries.
pub open spec fn ports_below(nodes: Seq<Node>, device: Seq<char>) -> Seq<HubPortEntry>
    decreases nodes.len(),
{
    if nodes.len() == 0 {
        Seq::empty()
    } else if nodes.last().name@.contains(':') {
        ports_below(nodes.drop_last(), device) + ports_among(in_order(nodes.last().children()), device)
    } else {
        ports_below(nodes.drop_last(), device)
    }
}

/// The last place up to `k` where `p` stands in `s`; -1 when there is none.
pub open spec fn last_place(s: Seq<char>, p: Seq<char>, k: int) -> int
    decreases k + 1,
{
    if k < 0 {
        -1
    } else if occurs_at(s, p, k) {
        k
    } else {
        last_place(s, p, k - 1)
    }
}

/// What follows the last `p` in `s`; all of it when there is none.
pub open spec fn after_last(s: Seq<char>, p: Seq<char>) -> Seq<char> {
    let k = last_place(s, p, s.len() as int);
    if k < 0 {
        s
    } else {
        s.skip(k + p.len())
    }
}

/// The number by which a port is listed; those without one come last.
pub open spec fn port_rank(name: Seq<char>) -> nat {
    match read_uint(after_last(name, "port"@), 10, u32::MAX as nat) {
        Some(n) => n,
        None => u32::MAX as nat,
    }
}

/// Ports stand by number.
pub open spec fn by_port_number() -> spec_fn(HubPortEntry, HubPortEntry) -> bool {
    |a: HubPortEntry, b: HubPortEntry| port_rank(a.name) <= port_rank(b.name)
}

/// The values of the files of a directory, by name.
pub open spec fn values_among(nodes: Seq<Node>) -> Seq<(Seq<char>, Seq<char>)>
    decreases nodes.len(),
{
    if nodes.len() == 0 {
        Seq::empty()
    } else {
        match crate::diag::files::value_of(nodes.last().content) {
            Some(v) => values_among(nodes.drop_last()).push((nodes.last().name@, v)),
            None => values_among(nodes.drop_last()),
        }
    }
}

/// The values of the files of the directory `name`.
pub open spec fn directory_values(entries: Seq<Node>, name: Seq<char>) -> Seq<(Seq<char>, Seq<char>)> {
    match entry_named(entries, name) {
        Some(n) => values_among(in_order(n.children())),
        None => Seq::empty(),
    }
}

/// One value, when there is one.
pub open spec fn one_value(entries: Seq<Node>, name: Seq<char>) -> Seq<(Seq<char>, Seq<char>)> {
    match value_named(entries, name) {
        Some(v) => seq![(name, v)],
        None => Seq::empty(),
    }
}

/// The power settings of a device, by name.
pub open spec fn power_values(entries: Seq<Node>) -> Seq<(Seq<char>, Seq<char>)> {
    match entry_named(entries, "power"@) {
        Some(n) => one_value(n.children(), "autosuspend"@) + one_value(n.children(), "control"@) + one_value(
            n.children(),
            "runtime_status"@,
        ),
        None => Seq::empty(),
    }
}

/// What several named values say.
pub open spec fn pairs(v: Seq<(String, String)>) -> Seq<(Seq<char>, Seq<char>)> {
    v.map_values(|p: (String, String)| (p.0@, p.1@))
}

/// The children of an entry.
fn children_of(node: &Node) -> (r: Option<&Vec<Node>>)
    ensures
        match r {
            Some(v) => node.children() == v@,
            None => node.children().len() == 0,
        },
{
    match &node.content {
        Content::Directory(v) => Some(v),
        _ => None,
    }
}

fn value(node: &Node, name: &str) -> (r: Option<String>)
    ensures
        text_of(r) == value_named(node.children(), name@),
{
    match children_of(node) {
        Some(v) => attr(v, name),
        None => None,
    }
}

fn link(node: &Node, name: &str) -> (r: Option<String>)
    ensures
        text_of(r) == link_named(node.children(), name@),
{
    match children_of(node) {
        Some(v) => link_name(v, name),
        None => None,
    }
}

/// The entries of a directory by name; none for anything else.
fn listing<'a>(node: &'a Node) -> (r: Vec<Listed<'a>>)
    ensures
        nodes_of(r@) == in_order(node.children()),
{
    match &node.content {
        Content::Directory(v) => list(v),
        _ => {
            let r: Vec<Listed<'a>> = Vec::new();
            assert(nodes_of(r@) =~= in_order(node.children()));
            r
        },
    }
}

fn read_endpoints(interface: &Node) -> (r: Vec<EndpointInfo>)
    ensures
        endpoint_entries(r@) == endpoints_among(in_order(interface.children())),
{
    let nodes = listing(interface);
    let ghost all = nodes_of(nodes@);
    let prefix = to_chars("ep_");
    let mut r: Vec<EndpointInfo> = Vec::new();
    let mut i: usize = 0;
    assert(all.take(0) =~= Seq::<Node>::empty());
    assert(endpoint_entries(r@) =~= Seq::<EndpointEntry>::empty());
    while i < nodes.len()
        invariant
            i <= nodes@.len(),
            all == nodes_of(nodes@),
            prefix@ == "ep_"@,
            endpoint_entries(r@) == endpoints_among(all.take(i as int)),
        decreases nodes@.len() - i,
    {
        assert(all.take(i + 1).drop_last() =~= all.take(i as int));
        let node = nodes[i].node;
        assert(all[i as int] == *node);
        if starts_with(&to_chars(node.name.as_str()), &prefix) {
            let e = EndpointInfo {
                name: node.name.clone(),
                address: value(node, "bEndpointAddress"),
                attributes: value(node, "bmAttributes"),
                max_packet_size: value(node, "wMaxPacketSize"),
                interval: value(node, "bInterval"),
                direction: value(node, "direction"),
                kind: value(node, "type"),
            };
            let ghost before = endpoint_entries(r@);
            let ghost entry = e@;
            r.push(e);
            assert(endpoint_entries(r@) =~= before.push(entry));
        }
        i = i + 1;
    }
    assert(all.take(all.len() as int) =~= all);
    r
}

fn read_iad(node: &Node) -> (r: Option<IadInfo>)
    ensures
        match r {
            Some(i) => iad_entry(node.children()) == Some(i@),
            None => iad_entry(node.children()) is None,
        },
{
    match value(node, "iad_bFirstInterface") {
        None => None,
        Some(first) => Some(
            IadInfo {
                first_interface: Some(first),
                interface_count: value(node, "iad_bInterfaceCount"),
                function_class: value(node, "iad_bFunctionClass"),
                function_subclass: value(node, "iad_bFunctionSubClass"),
                function_protocol: value(node, "iad_bFunctionProtocol"),
            },
        ),
    }
}

/// What several interfaces say.
pub open spec fn interface_entries(v: Seq<InterfaceInfo>) -> Seq<InterfaceEntry> {
    v.map_values(|i: InterfaceInfo| i@)
}

fn read_interfaces(device: &Node) -> (r: Vec<InterfaceInfo>)
    ensures
        interface_entries(r@) == interfaces_among(in_order(device.children())),
{
    let nodes = listing(device);
    let ghost all = nodes_of(nodes@);
    let mut r: Vec<InterfaceInfo> = Vec::new();
    let mut i: usize = 0;
    assert(all.take(0) =~= Seq::<Node>::empty());
    assert(interface_entries(r@) =~= Seq::<InterfaceEntry>::empty());
    while i < nodes.len()
        invariant
            i <= nodes@.len(),
            all == nodes_of(nodes@),
            interface_entries(r@) == interfaces_among(all.take(i as int)),
        decreases nodes@.len() - i,
    {
        assert(all.take(i + 1).drop_last() =~= all.take(i as int));
        let node = nodes[i].node;
        assert(all[i as int] == *node);
        if has_char(&to_chars(node.name.as_str()), ':') {
            let e = InterfaceInfo {
                name: node.name.clone(),
                number: value(node, "bInterfaceNumber"),
                alt_setting: value(node, "bAlternateSetting"),
                class: value(node, "bInterfaceClass"),
                subclass: value(node, "bInterfaceSubClass"),
                protocol: value(node, "bInterfaceProtocol"),
                num_endpoints: value(node, "bNumEndpoints"),
                description: value(node, "interface"),
                driver: link(node, "driver"),
                iad: read_iad(node),
                endpoints: read_endpoints(node),
            };
            let ghost before = interface_entries(r@);
            let ghost entry = e@;
            assert(entry == interface_entry(*node));
            r.push(e);
            assert(interface_entries(r@) =~= before.push(entry));
        }
        i = i + 1;
    }
    assert(all.take(all.len() as int) =~= all);
    r
}

/// What several ports say.
pub open spec fn port_entries(v: Seq<HubPortInfo>) -> Seq<HubPortEntry> {
    v.map_values(|p: HubPortInfo| p@)
}

/// The number by which a port is listed.
pub fn port_number(name: &str) -> (r: u32)
    ensures
        r == port_rank(name@),
{
    let v = to_chars(name);
    let p = to_chars("port");
    let mut k: usize = v.len();
    let mut tail: Option<usize> = None;
    loop
        invariant_except_break
            tail is None,
            last_place(v@, p@, v@.len() as int) == last_place(v@, p@, k as int),
        invariant
            k <= v@.len(),
            p@ == "port"@,
        ensures
            match tail {
                Some(t) => last_place(v@, p@, v@.len() as int) == t && t + p@.len() <= v@.len(),
                None => last_place(v@, p@, v@.len() as int) < 0,
            },
        decreases k,
    {
        if matches_at(&v, &p, k) {
            tail = Some(k);
            break ;
        }
        if k == 0 {
            assert(last_place(v@, p@, -1) == -1);
            break ;
        }
        k = k - 1;
    }
    let digits = match tail {
        Some(t) => slice(&v, t + p.len(), v.len()),
        None => slice(&v, 0, v.len()),
    };
    assert(digits@ =~= after_last(v@, p@));
    match parse_uint(&digits, 10, u32::MAX as u64) {
        Some(n) => n as u32,
        None => u32::MAX,
    }
}

impl Ranked for HubPortInfo {
    open spec fn le(self, other: Self) -> bool {
        port_rank(self.name@) <= port_rank(other.name@)
    }

    fn is_le(&self, other: &Self) -> (r: bool) {
        port_number(self.name.as_str()) <= port_number(other.name.as_str())
    }

    proof fn le_total(a: Self, b: Self) {
    }

    proof fn le_transitive(a: Self, b: Self, c: Self) {
    }
}

fn add_ports(interface: &Node, device: &str, out: &mut Vec<HubPortInfo>)
    ensures
        port_entries(final(out)@) == port_entries(old(out)@) + ports_among(
            in_order(interface.children()),
            device@,
        ),
{
    let nodes = listing(interface);
    let ghost all = nodes_of(nodes@);
    let ghost start = port_entries(out@);
    let mut prefix = to_chars(device);
    extend_str(&mut prefix, "-port");
    let mut i: usize = 0;
    assert(all.take(0) =~= Seq::<Node>::empty());
    assert(start + ports_among(all.take(0), device@) =~= start);
    while i < nodes.len()
        invariant
            i <= nodes@.len(),
            all == nodes_of(nodes@),
            prefix@ == device@ + "-port"@,
            port_entries(out@) == start + ports_among(all.take(i as int), device@),
        decreases nodes@.len() - i,
    {
        assert(all.take(i + 1).drop_last() =~= all.take(i as int));
        let node = nodes[i].node;
        assert(all[i as int] == *node);
        if starts_with(&to_chars(node.name.as_str()), &prefix) {
            let e = HubPortInfo {
                name: node.name.clone(),
                connect_type: value(node, "connect_type"),
                peer: link(node, "peer"),
                connector: link(node, "connector"),
                location: value(node, "location"),
                state: value(node, "state"),
                over_current_count: value(node, "over_current_count"),
                quirks: value(node, "quirks"),
            };
            let ghost before = port_entries(out@);
            let ghost entry = e@;
            let ghost so_far = ports_among(all.take(i as int), device@);
            out.push(e);
            assert(port_entries(out@) =~= before.push(entry));
            assert((start + so_far).push(entry) =~= start + so_far.push(entry));
        }
        i = i + 1;
    }
    assert(all.take(all.len() as int) =~= all);
}

/// A hub's ports live under its interface directories as `<device>-port<N>`.
fn read_ports(device: &Node) -> (r: Vec<HubPortInfo>)
    ensures
        port_entries(r@) == sorted_by(
            ports_below(in_order(device.children()), device.name@),
            by_port_number(),
        ),
{
    let nodes = listing(device);
    let ghost all = nodes_of(nodes@);
    let mut r: Vec<HubPortInfo> = Vec::new();
    let mut i: usize = 0;
    assert(all.take(0) =~= Seq::<Node>::empty());
    assert(port_entries(r@) =~= Seq::<HubPortEntry>::empty());
    while i < nodes.len()
        invariant
            i <= nodes@.len(),
            all == nodes_of(nodes@),
            port_entries(r@) == ports_below(all.take(i as int), device.name@),
        decreases nodes@.len() - i,
    {
        assert(all.take(i + 1).drop_last() =~= all.take(i as int));
        let node = nodes[i].node;
        assert(all[i as int] == *node);
        if has_char(&to_chars(node.name.as_str()), ':') {
            add_ports(node, device.name.as_str(), &mut r);
        }
        i = i + 1;
    }
    assert(all.take(all.len() as int) =~= all);
    proof {
        lemma_sorted_mapped(r@, rank::<HubPortInfo>(), |p: HubPortInfo| p@, by_port_number());
    }
    sort(r)
}

fn read_map(device: &Node, name: &str) -> (r: Vec<(String, String)>)
    ensures
        pairs(r@) == directory_values(device.children(), name@),
{
    let found = match children_of(device) {
        Some(v) => find_entry(v, name),
        None => None,
    };
    assert(match found {
        Some(n) => entry_named(device.children(), name@) == Some(*n),
        None => entry_named(device.children(), name@) is None,
    });
    let mut r: Vec<(String, String)> = Vec::new();
    assert(pairs(r@) =~= Seq::<(Seq<char>, Seq<char>)>::empty());
    let dir = match found {
        None => {
            return r;
        },
        Some(n) => n,
    };
    let nodes = listing(dir);
    let ghost all = nodes_of(nodes@);
    let mut i: usize = 0;
    assert(all.take(0) =~= Seq::<Node>::empty());
    while i < nodes.len()
        invariant
            i <= nodes@.len(),
            all == nodes_of(nodes@),
            pairs(r@) == values_among(all.take(i as int)),
        decreases nodes@.len() - i,
    {
        assert(all.take(i + 1).drop_last() =~= all.take(i as int));
        let node = nodes[i].node;
        assert(all[i as int] == *node);
        if let Some(v) = crate::diag::files::read_trimmed(&node.content) {
            let ghost before = pairs(r@);
            let ghost entry = (node.name@, v@);
            r.push((node.name.clone(), v));
            assert(pairs(r@) =~= before.push(entry));
        }
        i = i + 1;
    }
    assert(all.take(all.len() as int) =~= all);
    r
}

fn add_value(dir: &Node, name: &str, out: &mut Vec<(String, String)>)
    ensures
        pairs(final(out)@) == pairs(old(out)@) + one_value(dir.children(), name@),
{
    let ghost before = pairs(out@);
    match value(dir, name) {
        Some(v) => {
            let ghost entry = (name@, v@);
            out.push((name.to_owned(), v));
            assert(pairs(out@) =~= before + seq![entry]);
        },
        None => {
            assert(before + one_value(dir.children(), name@) =~= before);
        },
    }
}

fn read_power(device: &Node) -> (r: Vec<(String, String)>)
    ensures
        pairs(r@) == power_values(device.children()),
{
    let found = match children_of(device) {
        Some(v) => find_entry(v, "power"),
        None => None,
    };
    assert(match found {
        Some(n) => entry_named(device.children(), "power"@) == Some(*n),
        None => entry_named(device.children(), "power"@) is None,
    });
    let mut r: Vec<(String, String)> = Vec::new();
    assert(pairs(r@) =~= Seq::<(Seq<char>, Seq<char>)>::empty());
    if let Some(dir) = found {
        add_value(dir, "autosuspend", &mut r);
        add_value(dir, "control", &mut r);
        add_value(dir, "runtime_status", &mut r);
        assert(pairs(r@) =~= power_values(device.children()));
    }
    r
}

/// One device.
#[derive(Debug)]
pub struct UsbDeviceInfo {
    pub port_chain: String,
    pub bus: Option<u8>,
    pub devnum: Option<u8>,
    pub id_vendor: Option<String>,
    pub id_product: Option<String>,
    pub bcd_device: Option<String>,
    pub serial: Option<String>,
    pub manufacturer: Option<String>,
    pub product: Option<String>,
    pub vendor_name: Option<String>,
    pub product_name: Option<String>,
    pub device_class: Option<String>,
    pub device_subclass: Option<String>,
    pub device_protocol: Option<String>,
    /// The `version` attribute (bcdUSB).
    pub bcd_usb: Option<String>,
    pub speed: Option<String>,
    pub max_packet_size0: Option<String>,
    pub num_configurations: Option<String>,
    pub configuration_value: Option<String>,
    pub num_interfaces: Option<String>,
    pub bm_attributes: Option<String>,
    pub max_power: Option<String>,
    pub quirks: Option<String>,
    pub avoid_reset_quirk: Option<String>,
    pub ltm_capable: Option<String>,
    pub rx_lanes: Option<String>,
    pub tx_lanes: Option<String>,
    pub maxchild: Option<String>,
    pub urbnum: Option<String>,
    pub authorized: Option<String>,
    pub removable: Option<String>,
    pub physical_location: Vec<(String, String)>,
    /// `power/autosuspend`, `power/control`, `power/runtime_status`.
    pub power: Vec<(String, String)>,
    pub interfaces: Vec<InterfaceInfo>,
    pub ports: Vec<HubPortInfo>,
}

/// A small number that an attribute states.
pub open spec fn number_named(entries: Seq<Node>, name: Seq<char>) -> Option<nat> {
    match value_named(entries, name) {
        Some(v) => read_uint(v, 10, 255),
        None => None,
    }
}

/// A hexadecimal id that an attribute states.
pub open spec fn id_named(entries: Seq<Node>, name: Seq<char>) -> Option<nat> {
    match value_named(entries, name) {
        Some(v) => read_uint(v, 16, 65_535),
        None => None,
    }
}

/// The database's name of a vendor.
pub open spec fn vendor_called(usbids: Option<UsbIds>, vid: Option<nat>) -> Option<Seq<char>> {
    match (usbids, vid) {
        (Some(db), Some(v)) => db.vendor(v as u16),
        _ => None,
    }
}

/// The database's name of a product.
pub open spec fn product_called(usbids: Option<UsbIds>, vid: Option<nat>, pid: Option<nat>) -> Option<Seq<char>> {
    match (usbids, vid, pid) {
        (Some(db), Some(v), Some(p)) => db.product(v as u16, p as u16),
        _ => None,
    }
}

/// A number as an integer without bounds.
pub open spec fn byte_of(n: Option<u8>) -> Option<nat> {
    match n {
        Some(x) => Some(x as nat),
        None => None,
    }
}

/// Whether `info` says what the directory `node` says of a device.
pub open spec fn describes(info: UsbDeviceInfo, node: Node, usbids: Option<UsbIds>) -> bool {
    let c = node.children();
    &&& info.port_chain@ == node.name@
    &&& byte_of(info.bus) == number_named(c, "busnum"@)
    &&& byte_of(info.devnum) == number_named(c, "devnum"@)
    &&& text_of(info.id_vendor) == value_named(c, "idVendor"@)
    &&& text_of(info.id_product) == value_named(c, "idProduct"@)
    &&& text_of(info.bcd_device) == value_named(c, "bcdDevice"@)
    &&& text_of(info.serial) == value_named(c, "serial"@)
    &&& text_of(info.manufacturer) == value_named(c, "manufacturer"@)
    &&& text_of(info.product) == value_named(c, "product"@)
    &&& text_of(info.vendor_name) == vendor_called(usbids, id_named(c, "idVendor"@))
    &&& text_of(info.product_name) == product_called(usbids, id_named(c, "idVendor"@), id_named(c, "idProduct"@))
    &&& text_of(info.device_class) == value_named(c, "bDeviceClass"@)
    &&& text_of(info.device_subclass) == value_named(c, "bDeviceSubClass"@)
    &&& text_of(info.device_protocol) == value_named(c, "bDeviceProtocol"@)
    &&& text_of(info.bcd_usb) == value_named(c, "version"@)
    &&& text_of(info.speed) == value_named(c, "speed"@)
    &&& text_of(info.max_packet_size0) == value_named(c, "bMaxPacketSize0"@)
    &&& text_of(info.num_configurations) == value_named(c, "bNumConfigurations"@)
    &&& text_of(info.configuration_value) == value_named(c, "bConfigurationValue"@)
    &&& text_of(info.num_interfaces) == value_named(c, "bNumInterfaces"@)
    &&& text_of(info.bm_attributes) == value_named(c, "bmAttributes"@)
    &&& text_of(info.max_power) == value_named(c, "bMaxPower"@)
    &&& text_of(info.quirks) == value_named(c, "quirks"@)
    &&& text_of(info.avoid_reset_quirk) == value_named(c, "avoid_reset_quirk"@)
    &&& text_of(info.ltm_capable) == value_named(c, "ltm_capable"@)
    &&& text_of(info.rx_lanes) == value_named(c, "rx_lanes"@)
    &&& text_of(info.tx_lanes) == value_named(c, "tx_lanes"@)
    &&& text_of(info.maxchild) == value_named(c, "maxchild"@)
    &&& text_of(info.urbnum) == value_named(c, "urbnum"@)
    &&& text_of(info.authorized) == value_named(c, "authorized"@)
    &&& text_of(info.removable) == value_named(c, "removable"@)
    &&& pairs(info.physical_location@) == directory_values(c, "physical_location"@)
    &&& pairs(info.power@) == power_values(c)
    &&& interface_entries(info.interfaces@) == interfaces_among(in_order(c))
    &&& port_entries(info.ports@) == sorted_by(ports_below(in_order(c), node.name@), by_port_number())
}

fn small_number(node: &Node, name: &str) -> (r: Option<u8>)
    ensures
        byte_of(r) == number_named(node.children(), name@),
{
    match value(node, name) {
        Some(v) => match parse_uint(&to_chars(v.as_str()), 10, 255) {
            Some(n) => Some(n as u8),
            None => None,
        },
        None => None,
    }
}

fn hex_id(node: &Node, name: &str) -> (r: Option<u16>)
    ensures
        match r {
            Some(n) => id_named(node.children(), name@) == Some(n as nat),
            None => id_named(node.children(), name@) is None,
        },
{
    match value(node, name) {
        Some(v) => match parse_uint(&to_chars(v.as_str()), 16, 65_535) {
            Some(n) => Some(n as u16),
            None => None,
        },
        None => None,
    }
}

/// Everything that a device directory says.
pub fn read_device(node: &Node, usbids: Option<&UsbIds>) -> (r: UsbDeviceInfo)
    ensures
        describes(
            r,
            *node,
            (match usbids {
                Some(db) => Some(*db),
                None => None,
            }),
        ),
{
    let vid = hex_id(node, "idVendor");
    let pid = hex_id(node, "idProduct");
    let vendor_name = match (usbids, vid) {
        (Some(db), Some(v)) => match db.vendor_name(v) {
            Some(n) => Some(n.clone()),
            None => None,
        },
        _ => None,
    };
    let product_name = match (usbids, vid, pid) {
        (Some(db), Some(v), Some(p)) => match db.product_name(v, p) {
            Some(n) => Some(n.clone()),
            None => None,
        },
        _ => None,
    };
    UsbDeviceInfo {
        port_chain: node.name.clone(),
        bus: small_number(node, "busnum"),
        devnum: small_number(node, "devnum"),
        id_vendor: value(node, "idVendor"),
        id_product: value(node, "idProduct"),
        bcd_device: value(node, "bcdDevice"),
        serial: value(node, "serial"),
        manufacturer: value(node, "manufacturer"),
        product: value(node, "product"),
        vendor_name,
        product_name,
        device_class: value(node, "bDeviceClass"),
        device_subclass: value(node, "bDeviceSubClass"),
        device_protocol: value(node, "bDeviceProtocol"),
        bcd_usb: value(node, "version"),
        speed: value(node, "speed"),
        max_packet_size0: value(node, "bMaxPacketSize0"),
        num_configurations: value(node, "bNumConfigurations"),
        configuration_value: value(node, "bConfigurationValue"),
        num_interfaces: value(node, "bNumInterfaces"),
        bm_attributes: value(node, "bmAttributes"),
        max_power: value(node, "bMaxPower"),
        quirks: value(node, "quirks"),
        avoid_reset_quirk: value(node, "avoid_reset_quirk"),
        ltm_capable: value(node, "ltm_capable"),
        rx_lanes: value(node, "rx_lanes"),
        tx_lanes: value(node, "tx_lanes"),
        maxchild: value(node, "maxchild"),
        urbnum: value(node, "urbnum"),
        authorized: value(node, "authorized"),
        removable: value(node, "removable"),
        physical_location: read_map(node, "physical_location"),
        power: read_power(node),
        interfaces: read_interfaces(node),
        ports: read_ports(node),
    }
}

/// What a `ControllerInfo` says.
pub struct ControllerEntry {
    pub name: Seq<char>,
    pub buses: Seq<u8>,
    pub pci_vendor: Option<Seq<char>>,
    pub pci_device: Option<Seq<char>>,
    pub pci_revision: Option<Seq<char>>,
    pub driver: Option<Seq<char>>,
}

impl View for ControllerInfo {
    type V = ControllerEntry;

    open spec fn view(&self) -> ControllerEntry {
        ControllerEntry {
            name: self.name@,
            buses: self.buses@,
            pci_vendor: text_of(self.pci_vendor),
            pci_device: text_of(self.pci_device),
            pci_revision: text_of(self.pci_revision),
            driver: text_of(self.driver),
        }
    }
}

/// A root hub: the controller it lies under, its bus, and the entries of the
/// controller's directory.
pub struct HubFacts {
    pub controller: Seq<char>,
    pub bus: u8,
    pub around: Seq<Node>,
}

/// The controller above a root hub's real directory; its name is empty when
/// the directory above has none.
pub open spec fn controller_name(node: Node) -> Option<Seq<char>> {
    match node.canonical {
        Some(path) => match parent_parts(path@) {
            Some(_) => match enclosing_name(path@) {
                Some(name) => Some(name),
                None => Some(Seq::empty()),
            },
            None => None,
        },
        None => None,
    }
}

/// The entries beside a root hub, as they were listed under its name.
pub open spec fn around(parents: Seq<Node>, hub: Seq<char>) -> Seq<Node> {
    match entry_named(parents, hub) {
        Some(n) => n.children(),
        None => Seq::empty(),
    }
}

/// The bus of a root hub's name.
pub open spec fn bus_named(name: Seq<char>) -> u8 {
    (read_uint(name.skip(3), 10, 255)->0) as u8
}

/// The root hubs with a controller among some entries.
pub open spec fn hubs_among(nodes: Seq<Node>, parents: Seq<Node>) -> Seq<HubFacts>
    decreases nodes.len(),
{
    if nodes.len() == 0 {
        Seq::empty()
    } else {
        let front = hubs_among(nodes.drop_last(), parents);
        let node = nodes.last();
        match controller_name(node) {
            Some(controller) => if names_root_hub(node.name@) {
                front.push(
                    (HubFacts { controller, bus: bus_named(node.name@), around: around(parents, node.name@) }),
                )
            } else {
                front
            },
            None => front,
        }
    }
}

/// The buses of a controller, in the order of its hubs.
pub open spec fn buses_of(hubs: Seq<HubFacts>, controller: Seq<char>) -> Seq<u8>
    decreases hubs.len(),
{
    if hubs.len() == 0 {
        Seq::empty()
    } else if hubs.last().controller == controller {
        buses_of(hubs.drop_last(), controller).push(hubs.last().bus)
    } else {
        buses_of(hubs.drop_last(), controller)
    }
}

/// The entries of a controller's directory, as found at its first hub.
pub open spec fn first_around(hubs: Seq<HubFacts>, controller: Seq<char>) -> Seq<Node>
    decreases hubs.len(),
{
    if hubs.len() == 0 {
        Seq::empty()
    } else if hubs[0].controller == controller {
        hubs[0].around
    } else {
        first_around(hubs.skip(1), controller)
    }
}

/// A controller as its hubs tell it.
pub open spec fn controller_entry(hubs: Seq<HubFacts>, controller: Seq<char>) -> ControllerEntry {
    let dir = first_around(hubs, controller);
    ControllerEntry {
        name: controller,
        buses: sorted_by(buses_of(hubs, controller), rank::<u8>()),
        pci_vendor: value_named(dir, "vendor"@),
        pci_device: value_named(dir, "device"@),
        pci_revision: value_named(dir, "revision"@),
        driver: link_named(dir, "driver"@),
    }
}

/// The controllers that hubs name.
pub open spec fn hub_controllers(hubs: Seq<HubFacts>) -> Seq<Seq<char>> {
    hubs.map_values(|h: HubFacts| h.controller)
}

/// Whether `v` describes every controller of the hubs, once each and by name.
pub open spec fn lists_controllers(v: Seq<ControllerInfo>, hubs: Seq<HubFacts>) -> bool {
    &&& is_digest(v.map_values(|c: ControllerInfo| c.name@), hub_controllers(hubs))
    &&& forall|i: int| 0 <= i < v.len() ==> (#[trigger] v[i])@ == controller_entry(hubs, v[i].name@)
}

struct HubRef<'a> {
    controller: String,
    bus: u8,
    around: Option<&'a Vec<Node>>,
}

impl<'a> HubRef<'a> {
    spec fn facts(self) -> HubFacts {
        HubFacts {
            controller: self.controller@,
            bus: self.bus,
            around: match self.around {
                Some(v) => v@,
                None => Seq::empty(),
            },
        }
    }
}

spec fn hub_facts<'a>(v: Seq<HubRef<'a>>) -> Seq<HubFacts> {
    v.map_values(|h: HubRef<'a>| h.facts())
}

fn read_hub<'a>(node: &Node, parents: &'a Vec<Node>) -> (r: Option<HubRef<'a>>)
    ensures
        match r {
            Some(h) => names_root_hub(node.name@) && controller_name(*node) is Some && h.facts() == (HubFacts {
                controller: controller_name(*node)->0,
                bus: bus_named(node.name@),
                around: around(parents@, node.name@),
            }),
            None => !names_root_hub(node.name@) || controller_name(*node) is None,
        },
{
    if !is_root_hub(node.name.as_str()) {
        return None;
    }
    let path = match &node.canonical {
        None => {
            return None;
        },
        Some(p) => p,
    };
    let p = parts(&to_chars(path.as_str()));
    let n = p.len();
    if n == 0 {
        return None;
    }
    assert(parts_of(path@).last() == p@[n - 1]@);
    if crate::path::is_root(&p[n - 1]) {
        return None;
    }
    let controller = match enclosing_dir(path.as_str()) {
        Some(c) => c,
        None => String::new(),
    };
    assert(controller_name(*node) matches Some(c) && c =~= controller@);
    proof {
        reveal_strlit("usb");
    }
    let v = to_chars(node.name.as_str());
    let digits = slice(&v, 3, v.len());
    assert(digits@ =~= node.name@.skip(3));
    let bus = match parse_uint(&digits, 10, 255) {
        Some(b) => b as u8,
        None => 0,
    };
    let around = match find_entry(parents, node.name.as_str()) {
        Some(dir) => match &dir.content {
            Content::Directory(v) => Some(v),
            _ => None,
        },
        None => None,
    };
    let r = HubRef { controller, bus, around };
    assert(r.facts().around =~= crate::diag::inventory::around(parents@, node.name@));
    Some(r)
}

fn describe_controller<'a>(hubs: &Vec<HubRef<'a>>, name: &str) -> (r: ControllerInfo)
    ensures
        r@ == controller_entry(hub_facts(hubs@), name@),
{
    let ghost facts = hub_facts(hubs@);
    let mut buses: Vec<u8> = Vec::new();
    let mut i: usize = 0;
    assert(facts.take(0) =~= Seq::<HubFacts>::empty());
    while i < hubs.len()
        invariant
            i <= hubs@.len(),
            facts == hub_facts(hubs@),
            buses@ == buses_of(facts.take(i as int), name@),
        decreases hubs@.len() - i,
    {
        assert(facts.take(i + 1).drop_last() =~= facts.take(i as int));
        assert(facts[i as int] == hubs@[i as int].facts());
        if str_eq(hubs[i].controller.as_str(), name) {
            buses.push(hubs[i].bus);
        }
        i = i + 1;
    }
    assert(facts.take(facts.len() as int) =~= facts);
    let mut dir: Option<&'a Vec<Node>> = None;
    let mut k: usize = 0;
    assert(facts.skip(0) =~= facts);
    while k < hubs.len()
        invariant_except_break
            dir is None,
            first_around(facts, name@) == first_around(facts.skip(k as int), name@),
        invariant
            k <= hubs@.len(),
            facts == hub_facts(hubs@),
        ensures
            match dir {
                Some(v) => first_around(facts, name@) == v@,
                None => first_around(facts, name@).len() == 0,
            },
        decreases hubs@.len() - k,
    {
        assert(facts.skip(k as int)[0] == hubs@[k as int].facts());
        if str_eq(hubs[k].controller.as_str(), name) {
            dir = hubs[k].around;
            break ;
        }
        assert(facts.skip(k as int).skip(1) =~= facts.skip(k + 1));
        k = k + 1;
    }
    let (vendor, device, revision, driver) = match dir {
        Some(v) => (attr(v, "vendor"), attr(v, "device"), attr(v, "revision"), link_name(v, "driver")),
        None => (None, None, None, None),
    };
    ControllerInfo {
        name: name.to_owned(),
        buses: sort(buses),
        pci_vendor: vendor,
        pci_device: device,
        pci_revision: revision,
        driver,
    }
}

fn read_controllers(nodes: &Vec<Listed<'_>>, parents: &Vec<Node>) -> (r: Vec<ControllerInfo>)
    ensures
        lists_controllers(r@, hubs_among(nodes_of(nodes@), parents@)),
{
    let ghost all = nodes_of(nodes@);
    let mut hubs: Vec<HubRef<'_>> = Vec::new();
    let mut names: Vec<String> = Vec::new();
    let mut i: usize = 0;
    assert(all.take(0) =~= Seq::<Node>::empty());
    assert(hub_facts(hubs@) =~= Seq::<HubFacts>::empty());
    assert(string_views(names@) =~= hub_controllers(hub_facts(hubs@)));
    while i < nodes.len()
        invariant
            i <= nodes@.len(),
            all == nodes_of(nodes@),
            hub_facts(hubs@) == hubs_among(all.take(i as int), parents@),
            string_views(names@) == hub_controllers(hub_facts(hubs@)),
        decreases nodes@.len() - i,
    {
        assert(all.take(i + 1).drop_last() =~= all.take(i as int));
        let node = nodes[i].node;
        assert(all[i as int] == *node);
        if let Some(h) = read_hub(node, parents) {
            let ghost before = hub_facts(hubs@);
            let ghost said = string_views(names@);
            let ghost facts = h.facts();
            names.push(h.controller.clone());
            hubs.push(h);
            assert(hub_facts(hubs@) =~= before.push(facts));
            assert(string_views(names@) =~= said.push(facts.controller));
            assert(hub_controllers(before.push(facts)) =~= hub_controllers(before).push(facts.controller));
        }
        i = i + 1;
    }
    assert(all.take(all.len() as int) =~= all);
    let ghost facts = hub_facts(hubs@);
    let digest = sorted_unique(names);
    let mut r: Vec<ControllerInfo> = Vec::new();
    let ghost wanted = string_views(digest@);
    let mut k: usize = 0;
    while k < digest.len()
        invariant
            k <= digest@.len(),
            wanted == string_views(digest@),
            facts == hub_facts(hubs@),
            r@.map_values(|c: ControllerInfo| c.name@) == wanted.take(k as int),
            forall|j: int| 0 <= j < r@.len() ==> (#[trigger] r@[j])@ == controller_entry(facts, r@[j].name@),
        decreases digest@.len() - k,
    {
        let ghost before = r@.map_values(|c: ControllerInfo| c.name@);
        let c = describe_controller(&hubs, digest[k].as_str());
        assert(c@.name == wanted[k as int]);
        r.push(c);
        assert(r@.map_values(|c: ControllerInfo| c.name@) =~= before.push(wanted[k as int]));
        assert(wanted.take(k + 1) =~= wanted.take(k as int).push(wanted[k as int]));
        k = k + 1;
    }
    assert(wanted.take(wanted.len() as int) =~= wanted);
    r
}

/// Everything read of the USB tree.
#[derive(Debug)]
pub struct UsbInventory {
    pub usbids: UsbidsInfo,
    pub controllers: Vec<ControllerInfo>,
    pub devices: Vec<UsbDeviceInfo>,
}

/// The device directories of a tree, by name.
pub open spec fn device_nodes(entries: Seq<Node>) -> Seq<Node> {
    device_entries(in_order(entries))
}

/// The device directories of a tree, by name.
pub fn list_devices<'a>(entries: &'a Vec<Node>) -> (r: Vec<Listed<'a>>)
    ensures
        nodes_of(r@) == device_nodes(entries@),
{
    let nodes = list(entries);
    let ghost all = nodes_of(nodes@);
    let mut r: Vec<Listed<'a>> = Vec::new();
    let mut i: usize = 0;
    assert(all.take(0) =~= Seq::<Node>::empty());
    assert(nodes_of(r@) =~= Seq::<Node>::empty());
    while i < nodes.len()
        invariant
            i <= nodes@.len(),
            all == nodes_of(nodes@),
            nodes_of(r@) == device_entries(all.take(i as int)),
        decreases nodes@.len() - i,
    {
        assert(all.take(i + 1).drop_last() =~= all.take(i as int));
        let node = nodes[i].node;
        assert(all[i as int] == *node);
        if !has_char(&to_chars(node.name.as_str()), ':') {
            let ghost before = nodes_of(r@);
            r.push(Listed { node });
            assert(nodes_of(r@) =~= before.push(*node));
        }
        i = i + 1;
    }
    assert(all.take(all.len() as int) =~= all);
    r
}

/// What is noted about the USB tree.
pub open spec fn inventory_notes(base: Seq<char>, tree: Result<&Vec<Node>, String>) -> Seq<NoteFacts> {
    match tree {
        Err(e) => seq![NoteFacts { item: "sysfs usb devices"@, reason: "could not read "@ + base + ": "@ + e@ }],
        Ok(_) => Seq::empty(),
    }
}

/// What is said of the USB tree, and what is noted.
pub open spec fn tells_inventory(
    r: UsbInventory,
    said: Seq<NoteFacts>,
    base: Seq<char>,
    tree: Result<&Vec<Node>, String>,
    parents: Seq<Node>,
    usbids: Option<UsbIds>,
    info: UsbidsInfo,
) -> bool {
    &&& r.usbids == info
    &&& match tree {
        Err(_) => r.controllers@.len() == 0 && r.devices@.len() == 0,
        Ok(entries) => {
            let nodes = device_nodes(entries@);
            &&& lists_controllers(r.controllers@, hubs_among(nodes, parents))
            &&& r.devices@.len() == nodes.len()
            &&& forall|i: int| 0 <= i < nodes.len() ==> describes(#[trigger] r.devices@[i], nodes[i], usbids)
        },
    }
    &&& said == inventory_notes(base, tree)
}

/// Every device directory of a tree, with the controllers of its root hubs.
/// `parents` holds, under each root hub's name, what was listed in the
/// directory above it. A tree that could not be read is noted.
pub fn collect_usb_inventory(
    base: &str,
    tree: Result<&Vec<Node>, String>,
    parents: &Vec<Node>,
    usbids: Option<&UsbIds>,
    info: UsbidsInfo,
) -> (r: (UsbInventory, Vec<Note>))
    ensures
        tells_inventory(
            r.0,
            notes(r.1@),
            base@,
            tree,
            parents@,
            match usbids {
                Some(db) => Some(*db),
                None => None,
            },
            info,
        ),
{
    let entries = match tree {
        Err(e) => {
            let mut v = to_chars("could not read ");
            extend_str(&mut v, base);
            extend_str(&mut v, ": ");
            extend_str(&mut v, e.as_str());
            let mut said: Vec<Note> = Vec::new();
            said.push(note("sysfs usb devices", from_chars(&v).as_str()));
            assert(notes(said@) =~= seq![
                NoteFacts { item: "sysfs usb devices"@, reason: "could not read "@ + base@ + ": "@ + e@ },
            ]);
            return (UsbInventory { usbids: info, controllers: Vec::new(), devices: Vec::new() }, said);
        },
        Ok(entries) => entries,
    };
    let nodes = list_devices(entries);
    let ghost all = nodes_of(nodes@);
    let controllers = read_controllers(&nodes, parents);
    let mut devices: Vec<UsbDeviceInfo> = Vec::new();
    let ghost db = match usbids {
        Some(db) => Some(*db),
        None => None,
    };
    let mut i: usize = 0;
    while i < nodes.len()
        invariant
            i <= nodes@.len(),
            all == nodes_of(nodes@),
            devices@.len() == i,
            db == (match usbids {
                Some(db) => Some(*db),
                None => None,
            }),
            forall|j: int| 0 <= j < i ==> describes(#[trigger] devices@[j], all[j], db),
        decreases nodes@.len() - i,
    {
        assert(all[i as int] == *nodes@[i as int].node);
        let d = read_device(nodes[i].node, usbids);
        devices.push(d);
        i = i + 1;
    }
    let said: Vec<Note> = Vec::new();
    assert(notes(said@) =~= Seq::<NoteFacts>::empty());
    (UsbInventory { usbids: info, controllers, devices }, said)
}

} // verus!
