//! A fixture-owned copy of the device directories. Device directories become
//! real directories of copied attribute files, never the host's symlinks; the
//! only symlinks made are the relative `usbN` controller link, so the
//! controller resolves the same way it does live, and the relative hub port
//! `peer` links, both inside the bundle.

use vstd::prelude::*;
use vstd::utf8::encode_utf8;

use crate::connector::{own_number, own_port_number, peer_of, read_peer};
use crate::device::manager::{enclosing_dir, enclosing_name};
use crate::device::text_of;
use crate::number::{parse_uint, read_uint};
use crate::path::{relative_path, relative_text};
use crate::sysfs::{entry_named, find_entry, Content, Node};
use crate::text::{encode, extend_str, from_chars, has_char, slice, starts, starts_with, str_eq, to_chars};

verus! {

/// One thing to make in a fixture, by its path below the fixture's root.
#[derive(Debug)]
pub enum FixtureStep {
    /// A directory and every directory on the way.
    Directory { path: String },
    /// A file, fresh.
    File { path: String, bytes: Vec<u8> },
    /// A symlink, its target stored verbatim.
    Link { path: String, target: String },
}

/// What a `FixtureStep` says.
pub enum StepFacts {
    Directory { path: Seq<char> },
    File { path: Seq<char>, bytes: Seq<u8> },
    Link { path: Seq<char>, target: Seq<char> },
}

impl View for FixtureStep {
    type V = StepFacts;

    open spec fn view(&self) -> StepFacts {
        match self {
            FixtureStep::Directory { path } => StepFacts::Directory { path: path@ },
            FixtureStep::File { path, bytes } => StepFacts::File { path: path@, bytes: bytes@ },
            FixtureStep::Link { path, target } => StepFacts::Link { path: path@, target: target@ },
        }
    }
}

/// What several steps say.
pub open spec fn steps(v: Seq<FixtureStep>) -> Seq<StepFacts> {
    v.map_values(|s: FixtureStep| s@)
}

/// The attribute files copied of a device: those that are read back, except
/// `serial`. A bundle is published, a device serial identifies its owner's
/// hardware, and no replay reads it. Nothing else is copied either.
pub open spec fn device_attrs() -> Seq<Seq<char>> {
    seq![
        "busnum"@,
        "devnum"@,
        "speed"@,
        "idVendor"@,
        "idProduct"@,
        "manufacturer"@,
        "product"@,
        "version"@,
    ]
}

/// The attribute files copied of a hub port: the firmware's connectability
/// claim and its position value, neither of which identifies the host. The
/// `peer` link is rebuilt as a relative link once every port is known.
pub open spec fn port_attrs() -> Seq<Seq<char>> {
    seq!["connect_type"@, "location"@]
}

/// `name` below `dir`.
pub open spec fn under(dir: Seq<char>, name: Seq<char>) -> Seq<char> {
    dir + "/"@ + name
}

/// The bytes of a file.
pub open spec fn file_bytes(node: Node) -> Option<Seq<u8>> {
    match node.content {
        Content::Text(t) => Some(encode_utf8(t@)),
        Content::Bytes(b) => Some(b@),
        _ => None,
    }
}

/// The bytes of the file `name` among `entries`.
pub open spec fn bytes_named(entries: Seq<Node>, name: Seq<char>) -> Option<Seq<u8>> {
    match entry_named(entries, name) {
        Some(n) => file_bytes(n),
        None => None,
    }
}

/// The files called `names` (those that exist) written below `dst`.
pub open spec fn files_copied(entries: Seq<Node>, dst: Seq<char>, names: Seq<Seq<char>>) -> Seq<StepFacts>
    decreases names.len(),
{
    if names.len() == 0 {
        Seq::empty()
    } else {
        let front = files_copied(entries, dst, names.drop_last());
        match bytes_named(entries, names.last()) {
            Some(bytes) => front.push((StepFacts::File { path: under(dst, names.last()), bytes })),
            None => front,
        }
    }
}

/// A fresh directory with the files called `names` in it.
pub open spec fn copied(entries: Seq<Node>, dst: Seq<char>, names: Seq<Seq<char>>) -> Seq<StepFacts> {
    seq![StepFacts::Directory { path: dst }] + files_copied(entries, dst, names)
}

/// Whether a name is a root hub's: `usb` and a bus number.
pub open spec fn names_root_hub(name: Seq<char>) -> bool {
    starts(name, "usb"@) && read_uint(name.skip(3), 10, 255) is Some
}

/// The controller a root hub entry lies under.
pub open spec fn controller_above(node: Node) -> Option<Seq<char>> {
    match node.canonical {
        Some(p) => enclosing_name(p@),
        None => None,
    }
}

/// Where the copy of a device directory goes: a root hub whose controller is
/// known gets a stand-in below that controller's name.
pub open spec fn copy_dir(node: Node, dst: Seq<char>) -> Seq<char> {
    match controller_above(node) {
        Some(controller) => if names_root_hub(node.name@) {
            under(under(dst, controller), node.name@)
        } else {
            under(dst, node.name@)
        },
        None => under(dst, node.name@),
    }
}

/// The steps that copy a device directory's own files.
pub open spec fn device_copied(node: Node, dst: Seq<char>) -> Seq<StepFacts> {
    let files = copied(node.children(), copy_dir(node, dst), device_attrs());
    match controller_above(node) {
        Some(controller) => if names_root_hub(node.name@) {
            files.push(
                (StepFacts::Link {
                    path: under(dst, node.name@),
                    target: under(controller, node.name@),
                }),
            )
        } else {
            files
        },
        None => files,
    }
}

/// What a copy has come to: the steps, every copied port with its directory,
/// and every port with the name its `peer` link points at.
pub struct Layout {
    pub steps: Seq<StepFacts>,
    pub ports: Seq<(Seq<char>, Seq<char>)>,
    pub peers: Seq<(Seq<char>, Seq<char>)>,
}

/// A port object copied.
pub open spec fn port_copied(before: Layout, hub: Seq<char>, dst: Seq<char>, port: Node) -> Layout {
    match own_port_number(hub, port.name@) {
        None => before,
        Some(_) => {
            let dir = under(dst, port.name@);
            Layout {
                steps: before.steps + copied(port.children(), dir, port_attrs()),
                ports: before.ports.push((port.name@, dir)),
                peers: match peer_of(port) {
                    Some(peer) => before.peers.push((port.name@, peer)),
                    None => before.peers,
                },
            }
        },
    }
}

/// The port objects of one interface directory copied.
pub open spec fn interface_copied(before: Layout, hub: Seq<char>, dst: Seq<char>, entries: Seq<Node>) -> Layout
    decreases entries.len(),
{
    if entries.len() == 0 {
        before
    } else {
        port_copied(interface_copied(before, hub, dst, entries.drop_last()), hub, dst, entries.last())
    }
}

/// The port objects below a device's interface directories copied.
pub open spec fn ports_copied(before: Layout, hub: Seq<char>, dst: Seq<char>, children: Seq<Node>) -> Layout
    decreases children.len(),
{
    if children.len() == 0 {
        before
    } else {
        let front = ports_copied(before, hub, dst, children.drop_last());
        let child = children.last();
        if child.name@.contains(':') {
            interface_copied(front, hub, under(dst, child.name@), child.children())
        } else {
            front
        }
    }
}

/// One entry of the device directory copied; an interface is not a device.
pub open spec fn entry_copied(before: Layout, node: Node, dst: Seq<char>) -> Layout {
    if node.name@.contains(':') {
        before
    } else {
        ports_copied(
            (Layout { steps: before.steps + device_copied(node, dst), ..before }),
            node.name@,
            copy_dir(node, dst),
            node.children(),
        )
    }
}

/// Every entry of the device directory copied.
pub open spec fn entries_copied(entries: Seq<Node>, dst: Seq<char>) -> Layout
    decreases entries.len(),
{
    if entries.len() == 0 {
        Layout {
            steps: seq![StepFacts::Directory { path: dst }],
            ports: Seq::empty(),
            peers: Seq::empty(),
        }
    } else {
        entry_copied(entries_copied(entries.drop_last(), dst), entries.last(), dst)
    }
}

/// The directory a port was copied to; the last one, when several ports had
/// its name.
pub open spec fn dir_of(ports: Seq<(Seq<char>, Seq<char>)>, name: Seq<char>) -> Option<Seq<char>>
    decreases ports.len(),
{
    if ports.len() == 0 {
        None
    } else if ports.last().0 == name {
        Some(ports.last().1)
    } else {
        dir_of(ports.drop_last(), name)
    }
}

/// The link from a port to its peer, when both are in the bundle and are not
/// the same.
pub open spec fn peer_link(ports: Seq<(Seq<char>, Seq<char>)>, pair: (Seq<char>, Seq<char>)) -> Option<StepFacts> {
    match (dir_of(ports, pair.0), dir_of(ports, pair.1)) {
        (Some(from), Some(to)) => if from == to {
            None
        } else {
            Some((StepFacts::Link { path: under(from, "peer"@), target: relative_text(from, to) }))
        },
        _ => None,
    }
}

/// The links between ports.
pub open spec fn peer_links(
    ports: Seq<(Seq<char>, Seq<char>)>,
    peers: Seq<(Seq<char>, Seq<char>)>,
) -> Seq<StepFacts>
    decreases peers.len(),
{
    if peers.len() == 0 {
        Seq::empty()
    } else {
        match peer_link(ports, peers.last()) {
            Some(link) => peer_links(ports, peers.drop_last()).push(link),
            None => peer_links(ports, peers.drop_last()),
        }
    }
}

/// The steps that copy the device directory.
pub open spec fn sysfs_copied(entries: Seq<Node>, dst: Seq<char>) -> Seq<StepFacts> {
    let layout = entries_copied(entries, dst);
    layout.steps + peer_links(layout.ports, layout.peers)
}

fn path_under(dir: &str, name: &str) -> (r: String)
    ensures
        r@ == under(dir@, name@),
{
    let mut v = to_chars(dir);
    extend_str(&mut v, "/");
    extend_str(&mut v, name);
    from_chars(&v)
}

/// Whether a name is a root hub's: `usb` and a bus number.
pub fn is_root_hub(name: &str) -> (r: bool)
    ensures
        r == names_root_hub(name@),
{
    proof {
        reveal_strlit("usb");
    }
    let v = to_chars(name);
    let prefix = to_chars("usb");
    if !starts_with(&v, &prefix) {
        return false;
    }
    let rest = slice(&v, 3, v.len());
    assert(rest@ =~= v@.skip(3));
    parse_uint(&rest, 10, 255).is_some()
}

/// The same bytes again.
pub fn copy_bytes(v: &Vec<u8>) -> (r: Vec<u8>)
    ensures
        r@ == v@,
{
    let mut r: Vec<u8> = Vec::new();
    let mut i: usize = 0;
    while i < v.len()
        invariant
            i <= v@.len(),
            r@ == v@.take(i as int),
        decreases v@.len() - i,
    {
        r.push(v[i]);
        assert(v@.take(i + 1) =~= v@.take(i as int).push(v@[i as int]));
        i = i + 1;
    }
    assert(v@.take(v@.len() as int) =~= v@);
    r
}

/// The entries of a directory, where there is one.
fn entries_of(node: &Node) -> (r: Option<&Vec<Node>>)
    ensures
        match r {
            Some(v) => node.children() == v@,
            None => node.children().len() == 0,
        },
{
    match &node.content {
        Content::Directory(v) => Some(v),
        _ => None,
    }
}

/// The file `name` (where it exists) written below `dst`.
fn copy_one(node: &Node, dst: &str, name: &str, out: &mut Vec<FixtureStep>)
    ensures
        steps(final(out)@) == (match bytes_named(node.children(), name@) {
            Some(bytes) => steps(old(out)@).push((StepFacts::File { path: under(dst@, name@), bytes })),
            None => steps(old(out)@),
        }),
{
    let ghost before = steps(out@);
    let found = match entries_of(node) {
        None => None,
        Some(entries) => find_entry(entries, name),
    };
    assert(match found {
        Some(n) => entry_named(node.children(), name@) == Some(*n),
        None => entry_named(node.children(), name@) is None,
    });
    if let Some(file) = found {
        let bytes = match &file.content {
            Content::Text(t) => encode(t.as_str()),
            Content::Bytes(b) => copy_bytes(b),
            _ => {
                return ;
            },
        };
        let step = FixtureStep::File { path: path_under(dst, name), bytes };
        let ghost facts = step@;
        out.push(step);
        assert(steps(out@) =~= before.push(facts));
    }
}

/// A fresh directory `dst` with the named files (those that exist) in it.
fn copy_named(node: &Node, dst: &str, names: &Vec<&'static str>, out: &mut Vec<FixtureStep>)
    ensures
        steps(final(out)@) == steps(old(out)@) + copied(
            node.children(),
            dst@,
            names@.map_values(|s: &'static str| s@),
        ),
{
    let ghost before = steps(out@);
    let ghost views = names@.map_values(|s: &'static str| s@);
    let first = FixtureStep::Directory { path: dst.to_owned() };
    let ghost facts = first@;
    out.push(first);
    assert(steps(out@) =~= before.push(facts));
    let ghost head = before.push(facts);
    let mut i: usize = 0;
    assert(views.take(0) =~= Seq::<Seq<char>>::empty());
    assert(head + files_copied(node.children(), dst@, views.take(0)) =~= head);
    while i < names.len()
        invariant
            i <= names@.len(),
            views == names@.map_values(|s: &'static str| s@),
            steps(out@) == head + files_copied(node.children(), dst@, views.take(i as int)),
        decreases names@.len() - i,
    {
        assert(views.take(i + 1).drop_last() =~= views.take(i as int));
        assert(views[i as int] == names@[i as int]@);
        let ghost done = files_copied(node.children(), dst@, views.take(i as int));
        copy_one(node, dst, names[i], out);
        proof {
            if let Some(bytes) = bytes_named(node.children(), views[i as int]) {
                let f = StepFacts::File { path: under(dst@, views[i as int]), bytes };
                assert((head + done).push(f) =~= head + done.push(f));
            }
        }
        i = i + 1;
    }
    assert(views.take(views.len() as int) =~= views);
    assert(head + files_copied(node.children(), dst@, views) =~= before + copied(node.children(), dst@, views));
}

fn device_attr_names() -> (r: Vec<&'static str>)
    ensures
        r@.map_values(|s: &'static str| s@) == device_attrs(),
{
    let mut r: Vec<&'static str> = Vec::new();
    r.push("busnum");
    r.push("devnum");
    r.push("speed");
    r.push("idVendor");
    r.push("idProduct");
    r.push("manufacturer");
    r.push("product");
    r.push("version");
    assert(r@.map_values(|s: &'static str| s@) =~= device_attrs());
    r
}

fn port_attr_names() -> (r: Vec<&'static str>)
    ensures
        r@.map_values(|s: &'static str| s@) == port_attrs(),
{
    let mut r: Vec<&'static str> = Vec::new();
    r.push("connect_type");
    r.push("location");
    assert(r@.map_values(|s: &'static str| s@) =~= port_attrs());
    r
}

/// A copy under way.
struct Copy {
    steps: Vec<FixtureStep>,
    ports: Vec<(String, String)>,
    peers: Vec<(String, String)>,
}

spec fn pairs(v: Seq<(String, String)>) -> Seq<(Seq<char>, Seq<char>)> {
    v.map_values(|p: (String, String)| (p.0@, p.1@))
}

impl Copy {
    spec fn layout(self) -> Layout {
        Layout { steps: steps(self.steps@), ports: pairs(self.ports@), peers: pairs(self.peers@) }
    }

    fn port(&mut self, hub: &str, dst: &str, port: &Node)
        ensures
            final(self).layout() == port_copied(old(self).layout(), hub@, dst@, *port),
    {
        if own_number(hub, port.name.as_str()).is_none() {
            return ;
        }
        let ghost before = self.layout();
        let dir = path_under(dst, port.name.as_str());
        let names = port_attr_names();
        copy_named(port, dir.as_str(), &names, &mut self.steps);
        if let Some(peer) = read_peer(port) {
            let ghost peer_view = peer@;
            self.peers.push((port.name.clone(), peer));
            assert(pairs(self.peers@) =~= before.peers.push((port.name@, peer_view)));
        }
        let ghost dir_view = dir@;
        self.ports.push((port.name.clone(), dir));
        assert(pairs(self.ports@) =~= before.ports.push((port.name@, dir_view)));
    }

    fn interface(&mut self, hub: &str, dst: &str, interface: &Node)
        ensures
            final(self).layout() == interface_copied(old(self).layout(), hub@, dst@, interface.children()),
    {
        let ghost start = self.layout();
        if let Some(entries) = entries_of(interface) {
            let mut i: usize = 0;
            assert(entries@.take(0) =~= Seq::<Node>::empty());
            while i < entries.len()
                invariant
                    i <= entries@.len(),
                    self.layout() == interface_copied(start, hub@, dst@, entries@.take(i as int)),
                decreases entries@.len() - i,
            {
                assert(entries@.take(i + 1).drop_last() =~= entries@.take(i as int));
                self.port(hub, dst, &entries[i]);
                i = i + 1;
            }
            assert(entries@.take(entries@.len() as int) =~= entries@);
        }
    }

    /// Copies the hub port objects under a device's interface directories,
    /// keeping the `<interface>/<hub>-port<N>/` shape. Records each port's
    /// directory and the name its `peer` link points at.
    fn copy_ports(&mut self, device: &Node, dst: &str)
        ensures
            final(self).layout() == ports_copied(old(self).layout(), device.name@, dst@, device.children()),
    {
        let ghost start = self.layout();
        if let Some(children) = entries_of(device) {
            let mut i: usize = 0;
            assert(children@.take(0) =~= Seq::<Node>::empty());
            while i < children.len()
                invariant
                    i <= children@.len(),
                    self.layout() == ports_copied(start, device.name@, dst@, children@.take(i as int)),
                decreases children@.len() - i,
            {
                assert(children@.take(i + 1).drop_last() =~= children@.take(i as int));
                let name = to_chars(children[i].name.as_str());
                if has_char(&name, ':') {
                    let dir = path_under(dst, children[i].name.as_str());
                    self.interface(device.name.as_str(), dir.as_str(), &children[i]);
                }
                i = i + 1;
            }
            assert(children@.take(children@.len() as int) =~= children@);
        }
    }

    fn entry(&mut self, node: &Node, dst: &str)
        ensures
            final(self).layout() == entry_copied(old(self).layout(), *node, dst@),
    {
        let name = to_chars(node.name.as_str());
        if has_char(&name, ':') {
            return ;
        }
        let ghost before = self.layout();
        let controller = match &node.canonical {
            Some(p) => enclosing_dir(p.as_str()),
            None => None,
        };
        assert(text_of(controller) == controller_above(*node));
        let attrs = device_attr_names();
        let mut dir = path_under(dst, node.name.as_str());
        let root = is_root_hub(node.name.as_str());
        match controller {
            Some(c) if root => {
                let above = path_under(dst, c.as_str());
                let link = dir;
                dir = path_under(above.as_str(), node.name.as_str());
                copy_named(node, dir.as_str(), &attrs, &mut self.steps);
                let step = FixtureStep::Link { path: link, target: path_under(c.as_str(), node.name.as_str()) };
                let ghost facts = step@;
                let ghost files = steps(self.steps@);
                self.steps.push(step);
                assert(steps(self.steps@) =~= files.push(facts));
                assert(steps(self.steps@) =~= before.steps + device_copied(*node, dst@));
            },
            _ => {
                copy_named(node, dir.as_str(), &attrs, &mut self.steps);
            },
        }
        assert(dir@ == copy_dir(*node, dst@));
        assert(self.layout() == (Layout { steps: before.steps + device_copied(*node, dst@), ..before }));
        self.copy_ports(node, dir.as_str());
    }
}

fn directory_of<'a>(ports: &'a Vec<(String, String)>, name: &str) -> (r: Option<&'a String>)
    ensures
        match r {
            Some(d) => dir_of(pairs(ports@), name@) == Some(d@),
            None => dir_of(pairs(ports@), name@) is None,
        },
{
    let ghost views = pairs(ports@);
    let mut i: usize = ports.len();
    assert(views.take(views.len() as int) =~= views);
    while i > 0
        invariant
            i <= ports@.len(),
            views == pairs(ports@),
            dir_of(views, name@) == dir_of(views.take(i as int), name@),
        decreases i,
    {
        assert(views.take(i as int).last() == (ports@[i - 1].0@, ports@[i - 1].1@));
        if str_eq(ports[i - 1].0.as_str(), name) {
            return Some(&ports[i - 1].1);
        }
        assert(views.take(i as int).drop_last() =~= views.take(i - 1));
        i = i - 1;
    }
    None
}

fn link_peer(ports: &Vec<(String, String)>, port: &str, peer: &str) -> (r: Option<FixtureStep>)
    ensures
        match r {
            Some(s) => peer_link(pairs(ports@), (port@, peer@)) == Some(s@),
            None => peer_link(pairs(ports@), (port@, peer@)) is None,
        },
{
    match (directory_of(ports, port), directory_of(ports, peer)) {
        (Some(from), Some(to)) => {
            if str_eq(from.as_str(), to.as_str()) {
                None
            } else {
                Some(
                    FixtureStep::Link {
                        path: path_under(from.as_str(), "peer"),
                        target: relative_path(from.as_str(), to.as_str()),
                    },
                )
            }
        },
        _ => None,
    }
}

/// The steps that copy the device directory `entries` to `dst`, in order.
pub fn materialize_sysfs(entries: &Vec<Node>, dst: &str) -> (r: Vec<FixtureStep>)
    ensures
        steps(r@) == sysfs_copied(entries@, dst@),
{
    let mut copy = Copy { steps: Vec::new(), ports: Vec::new(), peers: Vec::new() };
    let first = FixtureStep::Directory { path: dst.to_owned() };
    let ghost facts = first@;
    copy.steps.push(first);
    assert(steps(copy.steps@) =~= seq![facts]);
    assert(pairs(copy.ports@) =~= Seq::<(Seq<char>, Seq<char>)>::empty());
    assert(pairs(copy.peers@) =~= Seq::<(Seq<char>, Seq<char>)>::empty());
    let mut i: usize = 0;
    assert(entries@.take(0) =~= Seq::<Node>::empty());
    while i < entries.len()
        invariant
            i <= entries@.len(),
            copy.layout() == entries_copied(entries@.take(i as int), dst@),
        decreases entries@.len() - i,
    {
        assert(entries@.take(i + 1).drop_last() =~= entries@.take(i as int));
        copy.entry(&entries[i], dst);
        i = i + 1;
    }
    assert(entries@.take(entries@.len() as int) =~= entries@);
    let Copy { steps: mut out, ports, peers } = copy;
    let ghost head = steps(out@);
    let ghost views = pairs(peers@);
    let mut k: usize = 0;
    assert(views.take(0) =~= Seq::<(Seq<char>, Seq<char>)>::empty());
    assert(head + peer_links(pairs(ports@), views.take(0)) =~= head);
    while k < peers.len()
        invariant
            k <= peers@.len(),
            views == pairs(peers@),
            steps(out@) == head + peer_links(pairs(ports@), views.take(k as int)),
        decreases peers@.len() - k,
    {
        assert(views.take(k + 1).drop_last() =~= views.take(k as int));
        assert(views[k as int] == (peers@[k as int].0@, peers@[k as int].1@));
        let ghost done = peer_links(pairs(ports@), views.take(k as int));
        if let Some(link) = link_peer(&ports, peers[k].0.as_str(), peers[k].1.as_str()) {
            let ghost before = steps(out@);
            let ghost facts = link@;
            out.push(link);
            assert(steps(out@) =~= before.push(facts));
            assert((head + done).push(facts) =~= head + done.push(facts));
        }
        k = k + 1;
    }
    assert(views.take(views.len() as int) =~= views);
    out
}

/// Whether a step writes no file, or one of the attribute files that a
/// fixture holds.
pub open spec fn is_known(step: StepFacts) -> bool {
    match step {
        StepFacts::File { path, .. } => exists|dir: Seq<char>, name: Seq<char>|
            path == #[trigger] under(dir, name) && (device_attrs().contains(name) || port_attrs().contains(
                name,
            )),
        _ => true,
    }
}

/// Whether every step is known.
pub open spec fn all_known(v: Seq<StepFacts>) -> bool {
    forall|i: int| 0 <= i < v.len() ==> is_known(#[trigger] v[i])
}

proof fn lemma_known_concat(a: Seq<StepFacts>, b: Seq<StepFacts>)
    requires
        all_known(a),
        all_known(b),
    ensures
        all_known(a + b),
{
    assert forall|i: int| 0 <= i < (a + b).len() implies is_known(#[trigger] (a + b)[i]) by {
        if i < a.len() {
            assert((a + b)[i] == a[i]);
        } else {
            assert((a + b)[i] == b[i - a.len()]);
        }
    }
}

proof fn lemma_copied_is_known(entries: Seq<Node>, dst: Seq<char>, names: Seq<Seq<char>>)
    requires
        forall|i: int|
            0 <= i < names.len() ==> device_attrs().contains(#[trigger] names[i]) || port_attrs().contains(names[i]),
    ensures
        all_known(files_copied(entries, dst, names)),
        all_known(copied(entries, dst, names)),
    decreases names.len(),
{
    if names.len() > 0 {
        let front = names.drop_last();
        assert forall|i: int| 0 <= i < front.len() implies device_attrs().contains(#[trigger] front[i])
            || port_attrs().contains(front[i]) by {
            assert(front[i] == names[i]);
        }
        lemma_copied_is_known(entries, dst, front);
        if let Some(bytes) = bytes_named(entries, names.last()) {
            let step = StepFacts::File { path: under(dst, names.last()), bytes };
            assert(names.last() == names[names.len() - 1]);
            assert(is_known(step));
        }
    }
    let first = seq![StepFacts::Directory { path: dst }];
    assert(all_known(first));
    lemma_known_concat(first, files_copied(entries, dst, names));
}

proof fn lemma_interface_is_known(before: Layout, hub: Seq<char>, dst: Seq<char>, entries: Seq<Node>)
    requires
        all_known(before.steps),
    ensures
        all_known(interface_copied(before, hub, dst, entries).steps),
    decreases entries.len(),
{
    if entries.len() > 0 {
        lemma_interface_is_known(before, hub, dst, entries.drop_last());
        let front = interface_copied(before, hub, dst, entries.drop_last());
        let port = entries.last();
        lemma_copied_is_known(port.children(), under(dst, port.name@), port_attrs());
        lemma_known_concat(front.steps, copied(port.children(), under(dst, port.name@), port_attrs()));
    }
}

proof fn lemma_ports_are_known(before: Layout, hub: Seq<char>, dst: Seq<char>, children: Seq<Node>)
    requires
        all_known(before.steps),
    ensures
        all_known(ports_copied(before, hub, dst, children).steps),
    decreases children.len(),
{
    if children.len() > 0 {
        lemma_ports_are_known(before, hub, dst, children.drop_last());
        let child = children.last();
        lemma_interface_is_known(
            ports_copied(before, hub, dst, children.drop_last()),
            hub,
            under(dst, child.name@),
            child.children(),
        );
    }
}

proof fn lemma_entries_are_known(entries: Seq<Node>, dst: Seq<char>)
    ensures
        all_known(entries_copied(entries, dst).steps),
    decreases entries.len(),
{
    if entries.len() > 0 {
        lemma_entries_are_known(entries.drop_last(), dst);
        let front = entries_copied(entries.drop_last(), dst);
        let node = entries.last();
        lemma_copied_is_known(node.children(), copy_dir(node, dst), device_attrs());
        lemma_known_concat(front.steps, device_copied(node, dst));
        lemma_ports_are_known(
            (Layout { steps: front.steps + device_copied(node, dst), ..front }),
            node.name@,
            copy_dir(node, dst),
            node.children(),
        );
    }
}

proof fn lemma_peer_links_are_known(
    ports: Seq<(Seq<char>, Seq<char>)>,
    peers: Seq<(Seq<char>, Seq<char>)>,
)
    ensures
        all_known(peer_links(ports, peers)),
    decreases peers.len(),
{
    if peers.len() > 0 {
        lemma_peer_links_are_known(ports, peers.drop_last());
    }
}

/// Whatever the host's tree holds, the copy writes the known attribute files
/// of devices and ports and no other file.
pub proof fn law_only_known_attributes_are_copied(entries: Seq<Node>, dst: Seq<char>)
    ensures
        all_known(sysfs_copied(entries, dst)),
{
    lemma_entries_are_known(entries, dst);
    let layout = entries_copied(entries, dst);
    lemma_peer_links_are_known(layout.ports, layout.peers);
    lemma_known_concat(layout.steps, peer_links(layout.ports, layout.peers));
}

/// A serial number is not among the known attribute files.
pub proof fn law_a_serial_is_not_a_known_attribute()
    ensures
        !device_attrs().contains("serial"@),
        !port_attrs().contains("serial"@),
{
    reveal_strlit("serial");
    reveal_strlit("busnum");
    reveal_strlit("devnum");
    reveal_strlit("speed");
    reveal_strlit("idVendor");
    reveal_strlit("idProduct");
    reveal_strlit("manufacturer");
    reveal_strlit("product");
    reveal_strlit("version");
    reveal_strlit("connect_type");
    reveal_strlit("location");
    let s = "serial"@;
    assert(s.len() == 6 && s[0] == 's');
    assert forall|i: int| 0 <= i < device_attrs().len() implies device_attrs()[i] != s by {
        assert(device_attrs()[0][0] == 'b');
        assert(device_attrs()[1][0] == 'd');
        assert(device_attrs()[2].len() == 5);
        assert(device_attrs()[3].len() == 8);
        assert(device_attrs()[4].len() == 9);
        assert(device_attrs()[5].len() == 12);
        assert(device_attrs()[6].len() == 7);
        assert(device_attrs()[7].len() == 7);
    }
    assert forall|i: int| 0 <= i < port_attrs().len() implies port_attrs()[i] != s by {
        assert(port_attrs()[0].len() == 12);
        assert(port_attrs()[1].len() == 8);
    }
}

} // verus!
