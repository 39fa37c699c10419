//! Physical connectors, from the sysfs port objects.
//!
//! Every hub, root hubs included, exposes one port object per downstream port
//! under its interface directory, named after the hub:
//! `usb3/3-0:1.0/usb3-port1`, `3-1/3-1:1.0/3-1-port4`. When a port has a
//! companion on the other bus of the same controller (the USB 2 and the
//! SuperSpeed halves of one receptacle), each carries a `peer` link to the
//! other. Pairing follows the link and never infers a companion from port
//! numbers or bus adjacency.

pub mod laws;

use vstd::prelude::*;

use crate::number::{decimal, lemma_decimal_round_trip, parse_uint, read_uint, to_decimal};
use crate::path::{last_name, name_of};
use crate::sysfs::{entry_named, find_entry, Content, Node};
use crate::table::NameTable;
use crate::text::{
    char_views, extend, extend_str, find_char, first_index, from_chars, has_char, join, join_with,
    lemma_first_index_is, lemma_split_of_join, slice, split, split_on, starts, starts_with, str_eq, to_chars,
};

verus! {

/// One hub port as sysfs describes it.
#[derive(Debug, PartialEq, Eq)]
pub struct PortInfo {
    /// The hub that owns the port: `usb3` or `3-1.4`.
    pub hub: String,
    /// The 1-based port number on that hub.
    pub number: u32,
    /// The companion port's name, from the `peer` link, when there is one.
    pub peer: Option<String>,
}

/// What a `PortInfo` says.
pub struct PortFacts {
    pub hub: Seq<char>,
    pub number: nat,
    pub peer: Option<Seq<char>>,
}

impl View for PortInfo {
    type V = PortFacts;

    open spec fn view(&self) -> PortFacts {
        PortFacts {
            hub: self.hub@,
            number: self.number as nat,
            peer: match self.peer {
                Some(p) => Some(p@),
                None => None,
            },
        }
    }
}

/// A port as a physical position: its name, the bus it is on, and its chain
/// (the hub's chain plus the port number: `usb3-port1` is `[1]`,
/// `3-1.4-port2` is `[1, 4, 2]`).
#[derive(Debug, PartialEq, Eq)]
pub struct PortRef {
    pub name: String,
    pub bus: u8,
    pub chain: Vec<u32>,
}

/// What a `PortRef` says.
pub struct PortPlace {
    pub name: Seq<char>,
    pub bus: nat,
    pub chain: Seq<nat>,
}

impl View for PortRef {
    type V = PortPlace;

    open spec fn view(&self) -> PortPlace {
        PortPlace { name: self.name@, bus: self.bus as nat, chain: numbers(self.chain@) }
    }
}

/// The port numbers as numbers.
pub open spec fn numbers(v: Seq<u32>) -> Seq<nat> {
    v.map_values(|n: u32| n as nat)
}

/// The port numbers that the pieces write, when each one is a number.
pub open spec fn chain_numbers(pieces: Seq<Seq<char>>) -> Option<Seq<nat>>
    decreases pieces.len(),
{
    if pieces.len() == 0 {
        Some(Seq::empty())
    } else {
        match (chain_numbers(pieces.drop_last()), read_uint(pieces.last(), 10, u32::MAX as nat)) {
            (Some(c), Some(n)) => Some(c.push(n)),
            _ => None,
        }
    }
}

/// The bus and port chain that a sysfs device name gives. A root hub is
/// `usb<N>`: bus `N`, no chain. Every other device is `<bus>-<p1>.<p2>...`.
pub open spec fn position_of(s: Seq<char>) -> Option<(nat, Seq<nat>)> {
    if starts(s, "usb"@) {
        match read_uint(s.skip("usb"@.len() as int), 10, 255) {
            Some(bus) => Some((bus, Seq::empty())),
            None => None,
        }
    } else {
        let k = first_index(s, '-');
        if k >= s.len() {
            None
        } else {
            match (
                read_uint(s.take(k as int), 10, 255),
                chain_numbers(split_on(s.skip(k as int + 1), '.')),
            ) {
                (Some(bus), Some(chain)) => Some((bus, chain)),
                _ => None,
            }
        }
    }
}

/// The decimal text of each number of a chain.
pub open spec fn chain_pieces(chain: Seq<nat>) -> Seq<Seq<char>> {
    chain.map_values(|n: nat| decimal(n))
}

/// `1.4.2`.
pub open spec fn chain_text(chain: Seq<nat>) -> Seq<char> {
    join_with(chain_pieces(chain), seq!['.'])
}

/// The sysfs name of the device at a position.
pub open spec fn position_name(bus: nat, chain: Seq<nat>) -> Seq<char> {
    if chain.len() == 0 {
        "usb"@ + decimal(bus)
    } else {
        decimal(bus) + "-"@ + chain_text(chain)
    }
}

/// The hub and port number a device is attached to.
pub open spec fn attachment(s: Seq<char>) -> Option<(Seq<char>, nat)> {
    match position_of(s) {
        Some((bus, chain)) => if chain.len() == 0 {
            None
        } else {
            Some((position_name(bus, chain.drop_last()), chain.last()))
        },
        None => None,
    }
}

/// The kernel's name for a port.
pub open spec fn port_text(hub: Seq<char>, number: nat) -> Seq<char> {
    hub + "-port"@ + decimal(number)
}

/// The device that sits on a hub's port, by name.
pub open spec fn device_on(hub: Seq<char>, number: nat) -> Option<Seq<char>> {
    match position_of(hub) {
        Some((bus, chain)) => Some(position_name(bus, chain.push(number))),
        None => None,
    }
}

/// The number of the port object `name` of `device`.
pub open spec fn own_port_number(device: Seq<char>, name: Seq<char>) -> Option<nat> {
    let prefix = device + "-port"@;
    if starts(name, prefix) {
        read_uint(name.skip(prefix.len() as int), 10, u32::MAX as nat)
    } else {
        None
    }
}

/// The companion that a port object's `peer` link names.
pub open spec fn peer_of(port: Node) -> Option<Seq<char>> {
    match entry_named(port.children(), "peer"@) {
        Some(n) => match n.link {
            Some(target) => name_of(target@),
            None => None,
        },
        None => None,
    }
}

/// The ports found so far and the port objects of `device` among `entries`.
pub open spec fn ports_in(
    found: Map<Seq<char>, PortFacts>,
    device: Seq<char>,
    entries: Seq<Node>,
) -> Map<Seq<char>, PortFacts>
    decreases entries.len(),
{
    if entries.len() == 0 {
        found
    } else {
        let before = ports_in(found, device, entries.drop_last());
        let entry = entries.last();
        match own_port_number(device, entry.name@) {
            Some(number) => before.insert(
                entry.name@,
                (PortFacts { hub: device, number, peer: peer_of(entry) }),
            ),
            None => before,
        }
    }
}

/// The ports found so far and those under the interface directories of
/// `device` (the children whose name holds a `:`).
pub open spec fn ports_under(
    found: Map<Seq<char>, PortFacts>,
    device: Seq<char>,
    children: Seq<Node>,
) -> Map<Seq<char>, PortFacts>
    decreases children.len(),
{
    if children.len() == 0 {
        found
    } else {
        let before = ports_under(found, device, children.drop_last());
        let child = children.last();
        if child.name@.contains(':') {
            ports_in(before, device, child.children())
        } else {
            before
        }
    }
}

/// Every port under a set of device directories, by port name.
pub open spec fn ports_of_devices(devices: Seq<Node>) -> Map<Seq<char>, PortFacts>
    decreases devices.len(),
{
    if devices.len() == 0 {
        Map::empty()
    } else {
        let device = devices.last();
        ports_under(ports_of_devices(devices.drop_last()), device.name@, device.children())
    }
}

/// The position of the port called `name`.
pub open spec fn place_of(ports: Map<Seq<char>, PortFacts>, name: Seq<char>) -> Option<PortPlace> {
    if ports.dom().contains(name) {
        match position_of(ports[name].hub) {
            Some((bus, chain)) => Some(
                (PortPlace { name, bus, chain: chain.push(ports[name].number) }),
            ),
            None => None,
        }
    } else {
        None
    }
}

/// The peer of the port called `name`, when it is a known port that peers
/// back.
pub open spec fn reciprocal(ports: Map<Seq<char>, PortFacts>, name: Seq<char>) -> Option<Seq<char>> {
    if ports.dom().contains(name) {
        match ports[name].peer {
            Some(peer) => if ports.dom().contains(peer) && ports[peer].peer == Some(name) {
                Some(peer)
            } else {
                None
            },
            None => None,
        }
    } else {
        None
    }
}

/// The port a device is attached to and its companion.
pub open spec fn connector(ports: Map<Seq<char>, PortFacts>, device: Seq<char>) -> Option<
    (PortPlace, Option<PortPlace>),
> {
    match attachment(device) {
        Some((hub, number)) => {
            let name = port_text(hub, number);
            match place_of(ports, name) {
                Some(own) => Some(
                    (
                        own,
                        match reciprocal(ports, name) {
                            Some(peer) => place_of(ports, peer),
                            None => None,
                        },
                    ),
                ),
                None => None,
            }
        },
        None => None,
    }
}

/// The one parser of a sysfs USB device name: every reading of a device name
/// goes through here, so the port column and the connector label cannot
/// disagree about what a name means.
pub fn parse_device_name(name: &str) -> (r: Option<(u8, Vec<u32>)>)
    ensures
        match r {
            Some((bus, chain)) => position_of(name@) == Some((bus as nat, numbers(chain@))),
            None => position_of(name@) is None,
        },
{
    let v = to_chars(name);
    let usb = to_chars("usb");
    if starts_with(&v, &usb) {
        let rest = slice(&v, usb.len(), v.len());
        assert(rest@ == v@.skip(usb@.len() as int));
        return match parse_uint(&rest, 10, 255) {
            Some(bus) => {
                let chain: Vec<u32> = Vec::new();
                assert(numbers(chain@) == Seq::<nat>::empty());
                Some((bus as u8, chain))
            },
            None => None,
        };
    }
    let k = find_char(&v, '-', 0);
    assert(v@.skip(0) == v@);
    if k >= v.len() {
        return None;
    }
    let head = slice(&v, 0, k);
    assert(head@ == v@.take(k as int));
    let tail = slice(&v, k + 1, v.len());
    assert(tail@ == v@.skip(k + 1));
    let pieces = split(&tail, '.');
    match parse_uint(&head, 10, 255) {
        None => None,
        Some(bus) => match parse_chain(&pieces) {
            Some(chain) => Some((bus as u8, chain)),
            None => None,
        },
    }
}

proof fn lemma_chain_numbers_prefix(pieces: Seq<Seq<char>>, k: int)
    requires
        0 <= k <= pieces.len(),
        chain_numbers(pieces) is Some,
    ensures
        chain_numbers(pieces.take(k)) is Some,
    decreases pieces.len() - k,
{
    if k == pieces.len() {
        assert(pieces.take(k) == pieces);
    } else {
        lemma_chain_numbers_prefix(pieces, k + 1);
        assert(pieces.take(k + 1).drop_last() == pieces.take(k));
    }
}

fn parse_chain(pieces: &Vec<Vec<char>>) -> (r: Option<Vec<u32>>)
    ensures
        match r {
            Some(chain) => chain_numbers(char_views(pieces@)) == Some(numbers(chain@)),
            None => chain_numbers(char_views(pieces@)) is None,
        },
{
    let ghost views = char_views(pieces@);
    let mut chain: Vec<u32> = Vec::new();
    let mut i: usize = 0;
    assert(views.take(0) == Seq::<Seq<char>>::empty());
    assert(numbers(chain@) == Seq::<nat>::empty());
    while i < pieces.len()
        invariant
            i <= pieces.len(),
            views == char_views(pieces@),
            chain_numbers(views.take(i as int)) == Some(numbers(chain@)),
        decreases pieces.len() - i,
    {
        assert(views[i as int] == pieces@[i as int]@);
        assert(views.take(i + 1).drop_last() == views.take(i as int));
        match parse_uint(&pieces[i], 10, u32::MAX as u64) {
            None => {
                proof {
                    if chain_numbers(views) is Some {
                        lemma_chain_numbers_prefix(views, i + 1);
                    }
                }
                return None;
            },
            Some(n) => {
                let ghost before = numbers(chain@);
                chain.push(n as u32);
                assert(numbers(chain@) == before.push(n as nat));
            },
        }
        i = i + 1;
    }
    assert(views.take(views.len() as int) == views);
    Some(chain)
}

/// `1.4.2`.
pub fn chain_to_text(chain: &Vec<u32>) -> (r: Vec<char>)
    ensures
        r@ == chain_text(numbers(chain@)),
{
    let mut pieces: Vec<Vec<char>> = Vec::new();
    let ghost all = chain_pieces(numbers(chain@));
    let mut i: usize = 0;
    assert(char_views(pieces@) == all.take(0));
    while i < chain.len()
        invariant
            i <= chain.len(),
            all == chain_pieces(numbers(chain@)),
            char_views(pieces@) == all.take(i as int),
        decreases chain.len() - i,
    {
        let text = to_decimal(chain[i] as u64);
        let ghost before = char_views(pieces@);
        assert(all[i as int] == text@);
        pieces.push(text);
        assert(char_views(pieces@) == before.push(text@));
        assert(all.take(i + 1) == all.take(i as int).push(all[i as int]));
        i = i + 1;
    }
    assert(all.take(all.len() as int) == all);
    let mut dot: Vec<char> = Vec::new();
    dot.push('.');
    assert(dot@ == seq!['.']);
    join(&pieces, &dot)
}

/// The sysfs name of the device at a position.
pub fn name_at(bus: u8, chain: &Vec<u32>) -> (r: String)
    ensures
        r@ == position_name(bus as nat, numbers(chain@)),
{
    let digits = to_decimal(bus as u64);
    if chain.len() == 0 {
        let mut r = to_chars("usb");
        extend(&mut r, &digits);
        from_chars(&r)
    } else {
        let mut r = digits;
        extend_str(&mut r, "-");
        let tail = chain_to_text(chain);
        extend(&mut r, &tail);
        from_chars(&r)
    }
}

/// The hub and port number a device is attached to, from its sysfs name:
/// `3-1.4` is port 4 of hub `3-1`; `3-1` is port 1 of root hub `usb3`. A
/// root hub is on no port, and anything that is not a device name is `None`.
pub fn port_of_device(device: &str) -> (r: Option<(String, u32)>)
    ensures
        match r {
            Some((hub, number)) => attachment(device@) == Some((hub@, number as nat)),
            None => attachment(device@) is None,
        },
{
    match parse_device_name(device) {
        None => None,
        Some((bus, chain)) => {
            let mut chain = chain;
            let ghost whole = numbers(chain@);
            match chain.pop() {
                None => None,
                Some(last) => {
                    assert(numbers(chain@) == whole.drop_last());
                    assert(whole.last() == last as nat);
                    Some((name_at(bus, &chain), last))
                },
            }
        },
    }
}

/// `<hub>-port<N>`, the kernel's port device name.
pub fn port_name(hub: &str, number: u32) -> (r: String)
    ensures
        r@ == port_text(hub@, number as nat),
{
    let mut r = to_chars(hub);
    extend_str(&mut r, "-port");
    let digits = to_decimal(number as u64);
    extend(&mut r, &digits);
    from_chars(&r)
}

/// The name of the device on a hub's port.
pub fn device_name_of_port(hub: &str, number: u32) -> (r: Option<String>)
    ensures
        match r {
            Some(name) => device_on(hub@, number as nat) == Some(name@),
            None => device_on(hub@, number as nat) is None,
        },
{
    match parse_device_name(hub) {
        None => None,
        Some((bus, chain)) => {
            let mut chain = chain;
            let ghost before = numbers(chain@);
            chain.push(number);
            assert(numbers(chain@) == before.push(number as nat));
            Some(name_at(bus, &chain))
        },
    }
}

/// The bus a device or hub name belongs to: `usb3` and `3-1.4` are both bus 3.
pub fn bus_of(name: &str) -> (r: Option<u8>)
    ensures
        match (r, position_of(name@)) {
            (Some(bus), Some((b, _))) => bus == b,
            (None, None) => true,
            _ => false,
        },
{
    match parse_device_name(name) {
        Some((bus, _)) => Some(bus),
        None => None,
    }
}

/// The port chain of a device or hub name: `usb3` is `[]`, `3-1.4` is `[1, 4]`.
pub fn chain_of(name: &str) -> (r: Option<Vec<u32>>)
    ensures
        match (r, position_of(name@)) {
            (Some(chain), Some((_, c))) => numbers(chain@) == c,
            (None, None) => true,
            _ => false,
        },
{
    match parse_device_name(name) {
        Some((_, chain)) => Some(chain),
        None => None,
    }
}

/// Every port found under a set of device directories, by port name.
#[derive(Debug)]
pub struct PortIndex {
    ports: NameTable<PortInfo>,
}

impl View for PortIndex {
    type V = Map<Seq<char>, PortFacts>;

    closed spec fn view(&self) -> Map<Seq<char>, PortFacts> {
        self.ports@.map_values(|i: PortInfo| i@)
    }
}

/// Whether `device` owns a port.
pub open spec fn owns_a_port(ports: Map<Seq<char>, PortFacts>, device: Seq<char>) -> bool {
    exists|name: Seq<char>| #[trigger] ports.dom().contains(name) && ports[name].hub == device
}

/// The entries that are devices: an interface's name carries a `:`.
pub open spec fn device_entries(base: Seq<Node>) -> Seq<Node>
    decreases base.len(),
{
    if base.len() == 0 {
        Seq::empty()
    } else if base.last().name@.contains(':') {
        device_entries(base.drop_last())
    } else {
        device_entries(base.drop_last()).push(base.last())
    }
}

impl Default for PortIndex {
    /// An index with no port in it.
    fn default() -> (index: PortIndex)
        ensures
            index@ == Map::<Seq<char>, PortFacts>::empty(),
    {
        let index = PortIndex { ports: NameTable::new() };
        assert(index@ =~= Map::<Seq<char>, PortFacts>::empty());
        index
    }
}

impl PortIndex {
    /// Scan the interface directories of every device directory in `devices`.
    /// Nothing deeper than `<device>/<interface>/<device>-port<N>` is
    /// visited, and nothing but the `peer` link is read. A directory that
    /// could not be read holds no port.
    pub fn scan_devices(devices: &Vec<Node>) -> (index: PortIndex)
        ensures
            index@ == ports_of_devices(devices@),
    {
        let mut index = PortIndex { ports: NameTable::new() };
        let mut i: usize = 0;
        assert(devices@.take(0) == Seq::<Node>::empty());
        assert(index@ == ports_of_devices(devices@.take(0)));
        while i < devices.len()
            invariant
                i <= devices.len(),
                index@ == ports_of_devices(devices@.take(i as int)),
            decreases devices.len() - i,
        {
            assert(devices@.take(i + 1).drop_last() == devices@.take(i as int));
            index.scan_device(&devices[i]);
            i = i + 1;
        }
        assert(devices@.take(devices@.len() as int) == devices@);
        index
    }

    /// Scan every device entry of a sysfs base directory: each entry whose
    /// name has no `:` (interface entries are skipped).
    pub fn scan(base: &Vec<Node>) -> (index: PortIndex)
        ensures
            index@ == ports_of_devices(device_entries(base@)),
    {
        let mut index = PortIndex { ports: NameTable::new() };
        let mut i: usize = 0;
        assert(base@.take(0) == Seq::<Node>::empty());
        assert(index@ == ports_of_devices(device_entries(base@.take(0))));
        while i < base.len()
            invariant
                i <= base.len(),
                index@ == ports_of_devices(device_entries(base@.take(i as int))),
            decreases base.len() - i,
        {
            assert(base@.take(i + 1).drop_last() == base@.take(i as int));
            let ghost before = device_entries(base@.take(i as int));
            if !has_char(&to_chars(base[i].name.as_str()), ':') {
                index.scan_device(&base[i]);
                assert(before.push(base@[i as int]).drop_last() =~= before);
            }
            i = i + 1;
        }
        assert(base@.take(base@.len() as int) == base@);
        index
    }

    fn scan_device(&mut self, device: &Node)
        ensures
            final(self)@ == ports_under(old(self)@, device.name@, device.children()),
    {
        let children = match &device.content {
            Content::Directory(v) => v,
            _ => {
                return ;
            },
        };
        let ghost start = self@;
        let mut i: usize = 0;
        assert(children@.take(0) == Seq::<Node>::empty());
        while i < children.len()
            invariant
                i <= children.len(),
                self@ == ports_under(start, device.name@, children@.take(i as int)),
            decreases children.len() - i,
        {
            assert(children@.take(i + 1).drop_last() == children@.take(i as int));
            let name = to_chars(children[i].name.as_str());
            if has_char(&name, ':') {
                self.scan_interface(device.name.as_str(), &children[i]);
            }
            i = i + 1;
        }
        assert(children@.take(children@.len() as int) == children@);
    }

    fn scan_interface(&mut self, device: &str, interface: &Node)
        ensures
            final(self)@ == ports_in(old(self)@, device@, interface.children()),
    {
        let entries = match &interface.content {
            Content::Directory(v) => v,
            _ => {
                return ;
            },
        };
        let ghost start = self@;
        let mut i: usize = 0;
        assert(entries@.take(0) == Seq::<Node>::empty());
        while i < entries.len()
            invariant
                i <= entries.len(),
                self@ == ports_in(start, device@, entries@.take(i as int)),
            decreases entries.len() - i,
        {
            assert(entries@.take(i + 1).drop_last() == entries@.take(i as int));
            let entry = &entries[i];
            if let Some(number) = own_number(device, entry.name.as_str()) {
                let peer = read_peer(entry);
                let info = PortInfo { hub: device.to_owned(), number, peer };
                let ghost before = self.ports@;
                let ghost facts = info@;
                self.ports.insert(entry.name.clone(), info);
                assert(before.insert(entry.name@, info).map_values(|i: PortInfo| i@) =~= before.map_values(
                    |i: PortInfo| i@,
                ).insert(entry.name@, facts));
            }
            i = i + 1;
        }
        assert(entries@.take(entries@.len() as int) == entries@);
    }

    /// Whether `device` owns any port object: it is a hub whose driver has
    /// created its ports.
    pub fn is_hub(&self, device: &str) -> (r: bool)
        ensures
            r == owns_a_port(self@, device@),
    {
        let n = self.ports.len();
        let mut i: usize = 0;
        let ghost pairs = self.ports.pairs();
        while i < n
            invariant
                i <= n,
                n == self.ports.pairs().len(),
                pairs == self.ports.pairs(),
                forall|j: int| 0 <= j < i ==> (#[trigger] pairs[j]).1.hub@ != device@,
            decreases n - i,
        {
            let (name, info) = self.ports.at(i);
            if str_eq(info.hub.as_str(), device) {
                assert(self@.dom().contains(name@));
                assert(self@[name@].hub == device@);
                return true;
            }
            i = i + 1;
        }
        proof {
            self.lemma_entries();
        }
        false
    }

    /// Every port of the index stands in the table's order.
    proof fn lemma_entries(&self)
        ensures
            forall|name: Seq<char>| #[trigger] self@.dom().contains(name) ==> exists|i: int|
                0 <= i < self.ports.pairs().len() && (#[trigger] self.ports.pairs()[i]).0 == name && self@[name]
                    == self.ports.pairs()[i].1@,
    {
        crate::table::lemma_members(&self.ports);
    }

    /// The port called `name`.
    pub fn get(&self, name: &str) -> (r: Option<&PortInfo>)
        ensures
            match r {
                Some(info) => self@.dom().contains(name@) && info@ == self@[name@],
                None => !self@.dom().contains(name@),
            },
    {
        self.ports.get(name)
    }

    /// The ports in name order.
    pub open spec fn names(&self) -> Seq<Seq<char>> {
        self.listing().map_values(|e: (Seq<char>, PortFacts)| e.0)
    }

    /// The ports in name order, each with what is known of it.
    pub closed spec fn listing(&self) -> Seq<(Seq<char>, PortFacts)> {
        self.ports.pairs().map_values(|e: (Seq<char>, PortInfo)| (e.0, e.1@))
    }

    /// Every port and its name, in name order.
    pub fn iter(&self) -> (r: Vec<(&String, &PortInfo)>)
        ensures
            r@.map_values(|e: (&String, &PortInfo)| (e.0@, e.1@)) == self.listing(),
            crate::table::names_ascend(self.names()),
            forall|name: Seq<char>| self@.dom().contains(name) <==> self.names().contains(name),
    {
        let n = self.ports.len();
        let mut r: Vec<(&String, &PortInfo)> = Vec::new();
        let mut i: usize = 0;
        let ghost listing = self.listing();
        while i < n
            invariant
                i <= n,
                n == self.ports.pairs().len(),
                listing == self.listing(),
                r@.map_values(|e: (&String, &PortInfo)| (e.0@, e.1@)) == listing.take(i as int),
            decreases n - i,
        {
            let e = self.ports.at(i);
            let ghost before = r@.map_values(|e: (&String, &PortInfo)| (e.0@, e.1@));
            r.push(e);
            assert(r@.map_values(|e: (&String, &PortInfo)| (e.0@, e.1@)) =~= before.push((e.0@, e.1@)));
            assert(listing[i as int] == (e.0@, e.1@));
            assert(listing.take(i + 1) == listing.take(i as int).push(listing[i as int]));
            i = i + 1;
        }
        proof {
            assert(listing.take(n as int) == listing);
            assert(self.names() =~= self.ports.names());
            self.lemma_entries();
            crate::table::lemma_members(&self.ports);
            assert forall|name: Seq<char>| self@.dom().contains(name) <==> self.names().contains(name) by {
                if self.names().contains(name) {
                    let i = choose|i: int| 0 <= i < self.names().len() && self.names()[i] == name;
                    assert(self.ports.pairs()[i].0 == name);
                }
                if self@.dom().contains(name) {
                    let i = choose|i: int|
                        0 <= i < self.ports.pairs().len() && (#[trigger] self.ports.pairs()[i]).0 == name;
                    assert(self.names()[i] == name);
                }
            }
        }
        r
    }

    fn port_ref(&self, name: &str) -> (r: Option<PortRef>)
        ensures
            match r {
                Some(p) => place_of(self@, name@) == Some(p@),
                None => place_of(self@, name@) is None,
            },
    {
        match self.ports.get(name) {
            None => None,
            Some(info) => {
                assert(self@[name@] == info@);
                match parse_device_name(info.hub.as_str()) {
                    None => None,
                    Some((bus, chain)) => {
                        let mut chain = chain;
                        let ghost before = numbers(chain@);
                        chain.push(info.number);
                        assert(numbers(chain@) == before.push(info.number as nat));
                        Some(PortRef { name: name.to_owned(), bus, chain })
                    },
                }
            },
        }
    }

    /// The peer of the port called `name`, when it peers back.
    pub fn peer_back(&self, name: &str) -> (r: Option<String>)
        ensures
            match r {
                Some(p) => reciprocal(self@, name@) == Some(p@),
                None => reciprocal(self@, name@) is None,
            },
    {
        let info = match self.ports.get(name) {
            None => {
                return None;
            },
            Some(info) => info,
        };
        assert(self@[name@] == info@);
        match &info.peer {
            None => None,
            Some(peer) => match self.ports.get(peer.as_str()) {
                None => None,
                Some(other) => {
                    assert(self@[peer@] == other@);
                    match &other.peer {
                        Some(back) => if str_eq(back.as_str(), name) {
                            Some(peer.clone())
                        } else {
                            None
                        },
                        None => None,
                    }
                },
            },
        }
    }

    /// The port `device` is attached to and, when the `peer` link is present
    /// and reciprocal, its companion. `None` when the device is a root hub,
    /// when its name does not parse, or when its port object is not in the
    /// index.
    pub fn connector_of(&self, device: &str) -> (r: Option<(PortRef, Option<PortRef>)>)
        ensures
            match r {
                Some((own, peer)) => connector(self@, device@) == Some(
                    (
                        own@,
                        match peer {
                            Some(p) => Some(p@),
                            None => None,
                        },
                    ),
                ),
                None => connector(self@, device@) is None,
            },
    {
        let (hub, number) = match port_of_device(device) {
            None => {
                return None;
            },
            Some(p) => p,
        };
        let name = port_name(hub.as_str(), number);
        let own = match self.port_ref(name.as_str()) {
            None => {
                return None;
            },
            Some(own) => own,
        };
        let peer = match self.peer_back(name.as_str()) {
            Some(peer) => self.port_ref(peer.as_str()),
            None => None,
        };
        Some((own, peer))
    }
}

/// The number of the port object `name` of `device`.
pub fn own_number(device: &str, name: &str) -> (r: Option<u32>)
    ensures
        match r {
            Some(n) => own_port_number(device@, name@) == Some(n as nat),
            None => own_port_number(device@, name@) is None,
        },
{
    let mut prefix = to_chars(device);
    extend_str(&mut prefix, "-port");
    let v = to_chars(name);
    if !starts_with(&v, &prefix) {
        return None;
    }
    let rest = slice(&v, prefix.len(), v.len());
    assert(rest@ == v@.skip(prefix@.len() as int));
    match parse_uint(&rest, 10, u32::MAX as u64) {
        Some(n) => Some(n as u32),
        None => None,
    }
}

/// The companion that the `peer` link of a port object names.
pub fn read_peer(port: &Node) -> (r: Option<String>)
    ensures
        match r {
            Some(p) => peer_of(*port) == Some(p@),
            None => peer_of(*port) is None,
        },
{
    let children = match &port.content {
        Content::Directory(v) => v,
        _ => {
            return None;
        },
    };
    match find_entry(children, "peer") {
        None => None,
        Some(n) => match &n.link {
            None => None,
            Some(target) => {
                let t = to_chars(target.as_str());
                match last_name(&t) {
                    Some(name) => Some(from_chars(&name)),
                    None => None,
                }
            },
        },
    }
}

proof fn lemma_decimal_lacks(n: nat, c: char)
    requires
        !('0' <= c <= '9'),
    ensures
        !decimal(n).contains(c),
{
    lemma_decimal_round_trip(n);
}

proof fn lemma_chain_reads_back(chain: Seq<nat>)
    requires
        forall|i: int| 0 <= i < chain.len() ==> #[trigger] chain[i] <= u32::MAX,
    ensures
        chain_numbers(chain_pieces(chain)) == Some(chain),
    decreases chain.len(),
{
    let pieces = chain_pieces(chain);
    if chain.len() > 0 {
        lemma_chain_reads_back(chain.drop_last());
        assert(pieces.drop_last() == chain_pieces(chain.drop_last()));
        lemma_decimal_round_trip(chain.last());
        assert(chain.drop_last().push(chain.last()) == chain);
    } else {
        assert(chain == Seq::<nat>::empty());
    }
}

/// The name written for a position reads back as that position.
pub proof fn law_position_round_trip(bus: nat, chain: Seq<nat>)
    requires
        bus <= 255,
        forall|i: int| 0 <= i < chain.len() ==> #[trigger] chain[i] <= u32::MAX,
    ensures
        position_of(position_name(bus, chain)) == Some((bus, chain)),
{
    reveal_strlit("usb");
    reveal_strlit("-");
    lemma_decimal_round_trip(bus);
    let digits = decimal(bus);
    let s = position_name(bus, chain);
    if chain.len() == 0 {
        assert(s.take(3) == "usb"@);
        assert(s.skip(3) == digits);
        assert(chain == Seq::<nat>::empty());
    } else {
        assert(s[0] == digits[0]);
        assert(!starts(s, "usb"@)) by {
            if starts(s, "usb"@) {
                assert(s.take(3)[0] == 'u');
            }
        }
        lemma_decimal_lacks(bus, '-');
        let k = digits.len() as int;
        assert forall|j: int| 0 <= j < k implies s[j] != '-' by {
            assert(s[j] == digits[j]);
            assert(digits.contains(digits[j]));
        }
        assert(s[k] == '-');
        lemma_first_index_is(s, '-', k);
        assert(s.take(k) == digits);
        assert(s.skip(k + 1) == chain_text(chain));
        let pieces = chain_pieces(chain);
        assert forall|i: int| 0 <= i < pieces.len() implies !(#[trigger] pieces[i]).contains('.') by {
            lemma_decimal_lacks(chain[i], '.');
        }
        lemma_split_of_join(pieces, '.');
        lemma_chain_reads_back(chain);
    }
}

/// The device named for a hub's port is attached to that port.
pub proof fn law_device_on_port_is_attached_there(hub: Seq<char>, number: nat)
    requires
        position_of(hub) is Some,
        number <= u32::MAX,
    ensures
        device_on(hub, number) is Some,
        attachment(device_on(hub, number)->0) == Some(
            (position_name((position_of(hub)->0).0, (position_of(hub)->0).1), number),
        ),
{
    let (bus, chain) = position_of(hub)->0;
    lemma_position_bounds(hub);
    let longer = chain.push(number);
    assert forall|i: int| 0 <= i < longer.len() implies #[trigger] longer[i] <= u32::MAX by {
        if i < chain.len() {
            assert(longer[i] == chain[i]);
        }
    }
    law_position_round_trip(bus, longer);
    assert(longer.drop_last() == chain);
}

proof fn lemma_chain_bounds(pieces: Seq<Seq<char>>)
    requires
        chain_numbers(pieces) is Some,
    ensures
        forall|i: int|
            0 <= i < (chain_numbers(pieces)->0).len() ==> #[trigger] (chain_numbers(pieces)->0)[i] <= u32::MAX,
    decreases pieces.len(),
{
    if pieces.len() > 0 {
        lemma_chain_bounds(pieces.drop_last());
    }
}

/// A position read from a name fits a bus and port numbers.
pub proof fn lemma_position_bounds(s: Seq<char>)
    requires
        position_of(s) is Some,
    ensures
        (position_of(s)->0).0 <= 255,
        forall|i: int|
            0 <= i < ((position_of(s)->0).1).len() ==> #[trigger] ((position_of(s)->0).1)[i] <= u32::MAX,
{
    if !starts(s, "usb"@) {
        let k = first_index(s, '-');
        lemma_chain_bounds(split_on(s.skip(k as int + 1), '.'));
    }
}

/// The hub a device is attached to stands one step nearer to the root.
pub proof fn law_attachment_shortens_the_chain(device: Seq<char>)
    requires
        attachment(device) is Some,
    ensures
        position_of((attachment(device)->0).0) is Some,
        (position_of((attachment(device)->0).0)->0).0 == (position_of(device)->0).0,
        (position_of((attachment(device)->0).0)->0).1 == (position_of(device)->0).1.drop_last(),
{
    lemma_position_bounds(device);
    let (bus, chain) = position_of(device)->0;
    let shorter = chain.drop_last();
    assert forall|i: int| 0 <= i < shorter.len() implies #[trigger] shorter[i] <= u32::MAX by {
        assert(shorter[i] == chain[i]);
    }
    law_position_round_trip(bus, shorter);
}

/// Pairing is mutual: the companion's companion is the port itself.
pub proof fn law_pairing_is_mutual(ports: Map<Seq<char>, PortFacts>, a: Seq<char>, b: Seq<char>)
    requires
        reciprocal(ports, a) == Some(b),
    ensures
        reciprocal(ports, b) == Some(a),
{
}

/// Every port of an index is named after the hub it is under: its name is the
/// hub's, `-port`, and its number.
pub open spec fn ports_are_named_for_their_hubs(ports: Map<Seq<char>, PortFacts>) -> bool {
    forall|name: Seq<char>| #[trigger]
        ports.dom().contains(name) ==> own_port_number(ports[name].hub, name) == Some(ports[name].number)
}

proof fn lemma_ports_in_are_named(found: Map<Seq<char>, PortFacts>, device: Seq<char>, entries: Seq<Node>)
    requires
        ports_are_named_for_their_hubs(found),
    ensures
        ports_are_named_for_their_hubs(ports_in(found, device, entries)),
    decreases entries.len(),
{
    if entries.len() > 0 {
        lemma_ports_in_are_named(found, device, entries.drop_last());
    }
}

proof fn lemma_ports_under_are_named(found: Map<Seq<char>, PortFacts>, device: Seq<char>, children: Seq<Node>)
    requires
        ports_are_named_for_their_hubs(found),
    ensures
        ports_are_named_for_their_hubs(ports_under(found, device, children)),
    decreases children.len(),
{
    if children.len() > 0 {
        let before = ports_under(found, device, children.drop_last());
        lemma_ports_under_are_named(found, device, children.drop_last());
        lemma_ports_in_are_named(before, device, children.last().children());
    }
}

/// Every port that a scan finds lies under the hub that its own name gives.
pub proof fn law_scanned_ports_are_named_for_their_hubs(devices: Seq<Node>)
    ensures
        ports_are_named_for_their_hubs(ports_of_devices(devices)),
    decreases devices.len(),
{
    if devices.len() > 0 {
        law_scanned_ports_are_named_for_their_hubs(devices.drop_last());
        lemma_ports_under_are_named(
            ports_of_devices(devices.drop_last()),
            devices.last().name@,
            devices.last().children(),
        );
    }
}

proof fn lemma_join_lacks(pieces: Seq<Seq<char>>, sep: Seq<char>, c: char)
    requires
        !sep.contains(c),
        forall|i: int| 0 <= i < pieces.len() ==> !(#[trigger] pieces[i]).contains(c),
    ensures
        !join_with(pieces, sep).contains(c),
    decreases pieces.len(),
{
    let all = join_with(pieces, sep);
    if pieces.len() > 0 {
        let front = pieces.drop_last();
        let last = pieces[pieces.len() - 1];
        assert forall|i: int| 0 <= i < front.len() implies !(#[trigger] front[i]).contains(c) by {
            assert(front[i] == pieces[i]);
        }
        lemma_join_lacks(front, sep, c);
        let head = join_with(front, sep);
        assert(!last.contains(c));
        assert forall|i: int| 0 <= i < all.len() implies all[i] != c by {
            if pieces.len() == 1 {
                assert(all == last);
                assert(last.contains(last[i]));
            } else if i < head.len() {
                assert(all[i] == head[i]);
                assert(head.contains(head[i]));
            } else if i < head.len() + sep.len() {
                assert(all[i] == sep[i - head.len()]);
                assert(sep.contains(sep[i - head.len()]));
            } else {
                assert(all[i] == last[i - head.len() - sep.len()]);
                assert(last.contains(last[i - head.len() - sep.len()]));
            }
        }
    }
}

/// No `p` stands in the name of a device.
proof fn lemma_position_name_lacks(bus: nat, chain: Seq<nat>)
    ensures
        !position_name(bus, chain).contains('p'),
{
    reveal_strlit("usb");
    reveal_strlit("-");
    lemma_decimal_lacks(bus, 'p');
    let digits = decimal(bus);
    let s = position_name(bus, chain);
    let tail = chain_text(chain);
    let pieces = chain_pieces(chain);
    assert forall|i: int| 0 <= i < pieces.len() implies !(#[trigger] pieces[i]).contains('p') by {
        lemma_decimal_lacks(chain[i], 'p');
    }
    lemma_join_lacks(pieces, seq!['.'], 'p');
    assert forall|i: int| 0 <= i < s.len() implies s[i] != 'p' by {
        if chain.len() == 0 {
            if i >= 3 {
                assert(s[i] == digits[i - 3]);
                assert(digits.contains(digits[i - 3]));
            }
        } else if i < digits.len() {
            assert(s[i] == digits[i]);
            assert(digits.contains(digits[i]));
        } else if i > digits.len() {
            assert(s[i] == tail[i - digits.len() - 1]);
            assert(tail.contains(tail[i - digits.len() - 1]));
        }
    }
}

/// Only one hub and number give the name of a port of a hub.
proof fn lemma_port_text_names_one_hub(bus: nat, chain: Seq<nat>, number: nat, hub: Seq<char>)
    requires
        number <= u32::MAX,
        own_port_number(hub, port_text(position_name(bus, chain), number)) is Some,
    ensures
        hub == position_name(bus, chain),
        own_port_number(hub, port_text(hub, number)) == Some(number),
{
    reveal_strlit("-port");
    let own = position_name(bus, chain);
    let name = port_text(own, number);
    let digits = decimal(number);
    lemma_position_name_lacks(bus, chain);
    lemma_decimal_lacks(number, 'p');
    lemma_decimal_round_trip(number);
    let prefix = hub + "-port"@;
    let at = hub.len() as int + 1;
    assert(name.take(prefix.len() as int) == prefix);
    assert(name[at] == prefix[at]);
    assert(name[at] == 'p');
    if at < own.len() {
        assert(name[at] == own[at]);
        assert(own.contains(own[at]));
    } else if at >= own.len() + 5 {
        assert(name[at] == digits[at - own.len() - 5]);
        assert(digits.contains(digits[at - own.len() - 5]));
    } else {
        assert(name[at] == "-port"@[at - own.len()]);
    }
    assert(hub.len() == own.len());
    assert(hub =~= own) by {
        assert forall|i: int| 0 <= i < hub.len() implies hub[i] == own[i] by {
            assert(name[i] == prefix[i]);
        }
    }
    assert(name.skip(prefix.len() as int) =~= digits);
}

/// In a scanned index, a device has a connector exactly when it is on a port
/// that the index holds. The connector stands where the device does, and its
/// companion is a port of the index that peers back; a dangling or one-way
/// link gives none.
pub proof fn law_a_connector_stands_where_its_device_does(devices: Seq<Node>, device: Seq<char>)
    ensures
        ({
            let ports = ports_of_devices(devices);
            match connector(ports, device) {
                None => attachment(device) is None || !ports.dom().contains(
                    port_text((attachment(device)->0).0, (attachment(device)->0).1),
                ),
                Some((own, peer)) => {
                    &&& attachment(device) is Some
                    &&& own.name == port_text((attachment(device)->0).0, (attachment(device)->0).1)
                    &&& ports.dom().contains(own.name)
                    &&& position_of(device) == Some((own.bus, own.chain))
                    &&& peer matches Some(q) ==> {
                        &&& ports.dom().contains(q.name)
                        &&& ports[own.name].peer == Some(q.name)
                        &&& ports[q.name].peer == Some(own.name)
                    }
                },
            }
        }),
{
    let ports = ports_of_devices(devices);
    law_scanned_ports_are_named_for_their_hubs(devices);
    if let Some((hub, number)) = attachment(device) {
        let name = port_text(hub, number);
        law_attachment_shortens_the_chain(device);
        lemma_position_bounds(device);
        let (bus, chain) = position_of(device)->0;
        assert(chain[chain.len() - 1] <= u32::MAX);
        if ports.dom().contains(name) {
            assert(own_port_number(ports[name].hub, name) == Some(ports[name].number));
            lemma_port_text_names_one_hub(bus, chain.drop_last(), number, ports[name].hub);
            assert(chain.drop_last().push(chain.last()) =~= chain);
        }
    }
}

} // verus!
