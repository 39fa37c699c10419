//! What a support bundle says of usbmon: its state, its nodes, and the source
//! that monitoring would pick.

use vstd::prelude::*;

use crate::capture::sysfs::copy_bytes;
use crate::device::text_of;
use crate::diag::collect::tell;
use crate::diag::{notes, Note, NoteFacts};
use crate::number::{decimal, octal4, parse_uint, read_uint, to_decimal, to_octal4};
use crate::order::{lemma_sorted_mapped, lex_le, rank, sort, sorted_by, Ranked};
use crate::path::{join_path, joined};
use crate::text::{extend, extend_str, from_chars, slice, starts, starts_with, string_views, to_chars};
use crate::usbmon::UsbmonStatus;

verus! {

/// What the system says of a node.
#[derive(Debug, Clone, Copy)]
pub struct NodeMeta {
    pub uid: u32,
    pub gid: u32,
    pub mode: u32,
}

/// One entry of the device directory, and whether it could be opened.
pub struct DevNode {
    pub name: String,
    pub meta: Option<NodeMeta>,
    pub openable: bool,
}

/// A usbmon node, its ownership and mode.
#[derive(Debug)]
pub struct NodeInfo {
    pub path: String,
    pub owner_uid: u32,
    pub group_gid: u32,
    pub mode_octal: String,
    /// Whether this process could open the node (dropped at once, so the
    /// probe never pins the module).
    pub openable: bool,
}

/// What a `NodeInfo` says.
pub struct NodeLine {
    pub path: Seq<char>,
    pub owner_uid: u32,
    pub group_gid: u32,
    pub mode_octal: Seq<char>,
    pub openable: bool,
}

impl View for NodeInfo {
    type V = NodeLine;

    open spec fn view(&self) -> NodeLine {
        NodeLine {
            path: self.path@,
            owner_uid: self.owner_uid,
            group_gid: self.group_gid,
            mode_octal: self.mode_octal@,
            openable: self.openable,
        }
    }
}

/// What several nodes say.
pub open spec fn node_lines(v: Seq<NodeInfo>) -> Seq<NodeLine> {
    v.map_values(|n: NodeInfo| n@)
}

/// usbmon exactly as startup sees it, plus the `/dev/usbmon*` nodes with
/// ownership and mode, and the debugfs directory listing.
#[derive(Debug)]
pub struct UsbmonInfo {
    pub module_loaded: bool,
    pub debugfs_mounted: bool,
    pub usbmon_available: bool,
    pub binary_available: bool,
    pub text_available: bool,
    pub permission_denied: bool,
    pub available_buses: Vec<u8>,
    pub status_error: Option<String>,
    pub debugfs_entries: Vec<String>,
    pub nodes: Vec<NodeInfo>,
}

/// The number of a usbmon node.
pub open spec fn monitor_number(name: Seq<char>) -> Option<nat> {
    if starts(name, "usbmon"@) {
        read_uint(name.skip("usbmon"@.len() as int), 10, 255)
    } else {
        None
    }
}

/// The nodes of a device directory that are usbmon's.
pub open spec fn monitors(dev: Seq<DevNode>) -> Seq<DevNode>
    decreases dev.len(),
{
    if dev.len() == 0 {
        Seq::empty()
    } else if monitor_number(dev.last().name@) is Some {
        monitors(dev.drop_last()).push(dev.last())
    } else {
        monitors(dev.drop_last())
    }
}

/// Where a node stands among usbmon's.
pub open spec fn place(node: DevNode) -> nat {
    match monitor_number(node.name@) {
        Some(n) => n,
        None => 255,
    }
}

/// usbmon's nodes stand by number.
pub open spec fn by_monitor_number() -> spec_fn(DevNode, DevNode) -> bool {
    |a: DevNode, b: DevNode| place(a) <= place(b)
}

/// What is said of the nodes that the system describes.
pub open spec fn described(dev: Seq<DevNode>, root: Seq<char>) -> Seq<NodeLine>
    decreases dev.len(),
{
    if dev.len() == 0 {
        Seq::empty()
    } else {
        match dev.last().meta {
            Some(meta) => described(dev.drop_last(), root).push(
                (NodeLine {
                    path: joined(root, dev.last().name@),
                    owner_uid: meta.uid,
                    group_gid: meta.gid,
                    mode_octal: octal4(meta.mode as nat),
                    openable: dev.last().openable,
                }),
            ),
            None => described(dev.drop_last(), root),
        }
    }
}

/// Texts stand in character order.
pub open spec fn by_text() -> spec_fn(Seq<char>, Seq<char>) -> bool {
    |a: Seq<char>, b: Seq<char>| lex_le(a, b)
}

impl UsbmonInfo {
    /// The state is that of `status`.
    pub open spec fn repeats(self, status: UsbmonStatus) -> bool {
        &&& self.module_loaded == status.module_loaded
        &&& self.debugfs_mounted == status.debugfs_mounted
        &&& self.usbmon_available == status.usbmon_available
        &&& self.binary_available == status.binary_available
        &&& self.text_available == status.text_available
        &&& self.permission_denied == status.permission_denied
        &&& self.available_buses@ == status.available_buses@
    }

    /// Nothing is there.
    pub open spec fn has_nothing(self) -> bool {
        &&& !self.module_loaded && !self.debugfs_mounted && !self.usbmon_available
        &&& !self.binary_available && !self.text_available && !self.permission_denied
        &&& self.available_buses@.len() == 0
    }
}

/// The number of a usbmon node.
fn number_in(name: &str) -> (r: Option<u64>)
    ensures
        match r {
            Some(n) => monitor_number(name@) == Some(n as nat),
            None => monitor_number(name@) is None,
        },
{
    let prefix = to_chars("usbmon");
    let v = to_chars(name);
    if !starts_with(&v, &prefix) {
        return None;
    }
    let rest = slice(&v, prefix.len(), v.len());
    assert(rest@ =~= v@.skip(prefix@.len() as int));
    parse_uint(&rest, 10, 255)
}

/// A usbmon node, ranked by its number.
struct Numbered<'a> {
    node: &'a DevNode,
}

impl<'a> Ranked for Numbered<'a> {
    closed spec fn le(self, other: Self) -> bool {
        place(*self.node) <= place(*other.node)
    }

    fn is_le(&self, other: &Self) -> (r: bool) {
        let a: u64 = match number_in(self.node.name.as_str()) {
            Some(n) => n,
            None => 255,
        };
        let b: u64 = match number_in(other.node.name.as_str()) {
            Some(n) => n,
            None => 255,
        };
        a <= b
    }

    proof fn le_total(a: Self, b: Self) {
    }

    proof fn le_transitive(a: Self, b: Self, c: Self) {
    }
}

spec fn dev_nodes<'a>(v: Seq<Numbered<'a>>) -> Seq<DevNode> {
    v.map_values(|n: Numbered<'a>| *n.node)
}

fn find_monitors<'a>(dev: &'a Vec<DevNode>) -> (r: Vec<Numbered<'a>>)
    ensures
        dev_nodes(r@) == monitors(dev@),
{
    let mut out: Vec<Numbered<'a>> = Vec::new();
    let mut i: usize = 0;
    assert(dev_nodes(out@) =~= Seq::<DevNode>::empty());
    while i < dev.len()
        invariant
            i <= dev@.len(),
            dev_nodes(out@) == monitors(dev@.take(i as int)),
        decreases dev@.len() - i,
    {
        assert(dev@.take(i + 1).drop_last() =~= dev@.take(i as int));
        if number_in(dev[i].name.as_str()).is_some() {
            let ghost before = dev_nodes(out@);
            out.push(Numbered { node: &dev[i] });
            assert(dev_nodes(out@) =~= before.push(dev@[i as int]));
        }
        i = i + 1;
    }
    assert(dev@.take(dev@.len() as int) =~= dev@);
    out
}

fn describe_monitors(dev_root: &str, dev: &Vec<DevNode>) -> (r: Vec<NodeInfo>)
    ensures
        node_lines(r@) == described(sorted_by(monitors(dev@), by_monitor_number()), dev_root@),
{
    let found = find_monitors(dev);
    proof {
        lemma_sorted_mapped(found@, rank::<Numbered>(), |n: Numbered| *n.node, by_monitor_number());
    }
    let nodes = sort(found);
    let ghost all = dev_nodes(nodes@);
    let root = to_chars(dev_root);
    let mut out: Vec<NodeInfo> = Vec::new();
    let mut i: usize = 0;
    assert(node_lines(out@) =~= Seq::<NodeLine>::empty());
    while i < nodes.len()
        invariant
            i <= nodes@.len(),
            all == dev_nodes(nodes@),
            root@ == dev_root@,
            node_lines(out@) == described(all.take(i as int), dev_root@),
        decreases nodes@.len() - i,
    {
        assert(all.take(i + 1).drop_last() =~= all.take(i as int));
        let node = nodes[i].node;
        assert(all[i as int] == *node);
        if let Some(meta) = &node.meta {
            let ghost before = node_lines(out@);
            let info = NodeInfo {
                path: from_chars(&join_path(&root, &to_chars(node.name.as_str()))),
                owner_uid: meta.uid,
                group_gid: meta.gid,
                mode_octal: from_chars(&to_octal4(meta.mode)),
                openable: node.openable,
            };
            let ghost line = info@;
            out.push(info);
            assert(node_lines(out@) =~= before.push(line));
        }
        i = i + 1;
    }
    assert(all.take(all.len() as int) =~= all);
    out
}

fn copy_names(names: &Vec<String>) -> (r: Vec<String>)
    ensures
        string_views(r@) == string_views(names@),
{
    let mut out: Vec<String> = Vec::new();
    let mut i: usize = 0;
    while i < names.len()
        invariant
            i <= names@.len(),
            out@.len() == i,
            forall|j: int| 0 <= j < i ==> (#[trigger] out@[j])@ == names@[j]@,
        decreases names@.len() - i,
    {
        out.push(names[i].clone());
        i = i + 1;
    }
    assert(string_views(out@) =~= string_views(names@));
    out
}

/// What is noted about usbmon.
pub open spec fn usbmon_notes(
    status: Result<UsbmonStatus, String>,
    debugfs: Result<Vec<String>, String>,
) -> Seq<NoteFacts> {
    (match status {
        Ok(_) => Seq::empty(),
        Err(e) => seq![NoteFacts { item: "usbmon status probe"@, reason: e@ }],
    }) + (match debugfs {
        Ok(_) => Seq::empty(),
        Err(e) => seq![NoteFacts { item: "debugfs usbmon directory"@, reason: e@ }],
    })
}

/// What is said of usbmon, and what is noted.
pub open spec fn tells_usbmon(
    r: UsbmonInfo,
    said: Seq<NoteFacts>,
    status: Result<UsbmonStatus, String>,
    dev_root: Seq<char>,
    dev: Seq<DevNode>,
    debugfs: Result<Vec<String>, String>,
) -> bool {
    &&& match status {
        Ok(s) => r.repeats(s) && r.status_error is None,
        Err(e) => r.has_nothing() && text_of(r.status_error) == Some(e@),
    }
    &&& node_lines(r.nodes@) == described(sorted_by(monitors(dev), by_monitor_number()), dev_root)
    &&& string_views(r.debugfs_entries@) == (match debugfs {
        Ok(names) => sorted_by(string_views(names@), by_text()),
        Err(_) => Seq::empty(),
    })
    &&& said == usbmon_notes(status, debugfs)
}

/// usbmon's state, its nodes in the device directory by number, and the names
/// in the debugfs directory in order. A state that could not be found out,
/// and a directory that could not be listed, are noted.
pub fn collect_usbmon(
    status: &Result<UsbmonStatus, String>,
    dev_root: &str,
    dev: &Vec<DevNode>,
    debugfs: &Result<Vec<String>, String>,
) -> (r: (UsbmonInfo, Vec<Note>))
    ensures
        tells_usbmon(r.0, notes(r.1@), *status, dev_root@, dev@, *debugfs),
{
    let mut said: Vec<Note> = Vec::new();
    assert(notes(said@) =~= Seq::<NoteFacts>::empty());
    let mut info = UsbmonInfo {
        module_loaded: false,
        debugfs_mounted: false,
        usbmon_available: false,
        binary_available: false,
        text_available: false,
        permission_denied: false,
        available_buses: Vec::new(),
        status_error: None,
        debugfs_entries: Vec::new(),
        nodes: describe_monitors(dev_root, dev),
    };
    match status {
        Ok(s) => {
            info.module_loaded = s.module_loaded;
            info.debugfs_mounted = s.debugfs_mounted;
            info.usbmon_available = s.usbmon_available;
            info.binary_available = s.binary_available;
            info.text_available = s.text_available;
            info.permission_denied = s.permission_denied;
            info.available_buses = copy_bytes(&s.available_buses);
        },
        Err(e) => {
            tell(&mut said, "usbmon status probe", e.as_str());
            info.status_error = Some(e.clone());
        },
    }
    match debugfs {
        Ok(names) => {
            let copy = copy_names(names);
            proof {
                lemma_sorted_mapped(copy@, rank::<String>(), |s: String| s@, by_text());
            }
            info.debugfs_entries = sort(copy);
        },
        Err(e) => {
            assert(string_views(info.debugfs_entries@) =~= Seq::<Seq<char>>::empty());
            tell(&mut said, "debugfs usbmon directory", e.as_str());
        },
    }
    (info, said)
}

/// Which source monitoring would pick and why.
#[derive(Debug)]
pub struct BackendInfo {
    /// `"mmap"`, `"binary"`, `"text"`, or `"none"`.
    pub would_select: &'static str,
    pub reason: String,
    /// The bus whose node was probed: 0 (the aggregate) when it is listed,
    /// else the first bus, else none.
    pub probed_bus: Option<u8>,
    /// The ring size the kernel granted after the ladder, on a mappable node.
    pub ring_bytes: Option<usize>,
    pub ebpf_built_in: bool,
    pub btf_present: bool,
}

/// What was found of a bus's node and of its debugfs file.
#[derive(Debug, Clone, Copy)]
pub struct NodeProbe {
    /// The node's ring could be mapped.
    pub mapped: bool,
    /// The size of the ring that the kernel granted.
    pub ring_bytes: Option<usize>,
    /// The node could be opened.
    pub opened: bool,
    /// The debugfs file exists.
    pub text_exists: bool,
}

/// The bus to probe: 0, the aggregate, when it is listed, else the first.
pub open spec fn chosen_bus(buses: Seq<u8>) -> Option<u8> {
    if buses.contains(0) {
        Some(0)
    } else if buses.len() > 0 {
        Some(buses[0])
    } else {
        None
    }
}

/// The bus to probe: 0, the aggregate, when it is listed, else the first.
pub fn bus_to_probe(buses: &Vec<u8>) -> (r: Option<u8>)
    ensures
        r == chosen_bus(buses@),
{
    let mut i: usize = 0;
    while i < buses.len()
        invariant
            i <= buses@.len(),
            forall|j: int| 0 <= j < i ==> buses@[j] != 0,
        decreases buses@.len() - i,
    {
        if buses[i] == 0 {
            assert(buses@.contains(buses@[i as int]));
            return Some(0);
        }
        i = i + 1;
    }
    if buses.len() > 0 {
        Some(buses[0])
    } else {
        None
    }
}

/// The binary node of a bus.
pub open spec fn node_path(dev_root: Seq<char>, bus: u8) -> Seq<char> {
    joined(dev_root, "usbmon"@ + decimal(bus as nat))
}

/// The debugfs file of a bus.
pub open spec fn text_path(debugfs_root: Seq<char>, bus: u8) -> Seq<char> {
    joined(debugfs_root, decimal(bus as nat) + "u"@)
}

/// The binary node and the debugfs file of a bus.
pub fn probe_paths(dev_root: &str, debugfs_root: &str, bus: u8) -> (r: (String, String))
    ensures
        r.0@ == node_path(dev_root@, bus),
        r.1@ == text_path(debugfs_root@, bus),
{
    let mut node = to_chars("usbmon");
    extend(&mut node, &to_decimal(bus as u64));
    let mut text = to_decimal(bus as u64);
    extend_str(&mut text, "u");
    (
        from_chars(&join_path(&to_chars(dev_root), &node)),
        from_chars(&join_path(&to_chars(debugfs_root), &text)),
    )
}

/// The source picked after a probe, and why.
pub open spec fn selection(node: Seq<char>, text: Seq<char>, probe: NodeProbe) -> (Seq<char>, Seq<char>) {
    if probe.mapped {
        ("mmap"@, node + " opened and its ring mapped"@)
    } else if probe.opened {
        ("binary"@, node + " opened but its ring could not be mapped"@)
    } else if probe.text_exists {
        ("text"@, node + " could not be opened; "@ + text + " exists"@)
    } else {
        ("none"@, "neither "@ + node + " nor "@ + text + " can be used"@)
    }
}

/// What is said of the source that would be picked.
pub open spec fn tells_backend(
    r: BackendInfo,
    buses: Seq<u8>,
    dev_root: Seq<char>,
    debugfs_root: Seq<char>,
    probe: NodeProbe,
    ebpf_built_in: bool,
    btf_present: bool,
) -> bool {
    &&& r.ebpf_built_in == ebpf_built_in
    &&& r.btf_present == btf_present
    &&& r.probed_bus == chosen_bus(buses)
    &&& match chosen_bus(buses) {
        None => {
            &&& r.would_select@ == "none"@
            &&& r.reason@ == "no usbmon bus is available"@
            &&& r.ring_bytes is None
        },
        Some(bus) => {
            let s = selection(node_path(dev_root, bus), text_path(debugfs_root, bus), probe);
            &&& r.would_select@ == s.0
            &&& r.reason@ == s.1
            &&& r.ring_bytes == (if probe.mapped {
                probe.ring_bytes
            } else {
                None
            })
        },
    }
}

/// Which source monitoring would pick for `buses` and why, from what was
/// found of the node and the file of the bus to probe ([`bus_to_probe`],
/// [`probe_paths`]).
pub fn probe_backend(
    buses: &Vec<u8>,
    dev_root: &str,
    debugfs_root: &str,
    probe: &NodeProbe,
    ebpf_built_in: bool,
    btf_present: bool,
) -> (r: BackendInfo)
    ensures
        tells_backend(r, buses@, dev_root@, debugfs_root@, *probe, ebpf_built_in, btf_present),
{
    let probed_bus = bus_to_probe(buses);
    let bus = match probed_bus {
        Some(bus) => bus,
        None => {
            return BackendInfo {
                would_select: "none",
                reason: "no usbmon bus is available".to_owned(),
                probed_bus,
                ring_bytes: None,
                ebpf_built_in,
                btf_present,
            };
        },
    };
    let (node, text) = probe_paths(dev_root, debugfs_root, bus);
    let mut reason = to_chars(node.as_str());
    let mut ring_bytes: Option<usize> = None;
    let would_select = if probe.mapped {
        extend_str(&mut reason, " opened and its ring mapped");
        ring_bytes = probe.ring_bytes;
        "mmap"
    } else if probe.opened {
        extend_str(&mut reason, " opened but its ring could not be mapped");
        "binary"
    } else if probe.text_exists {
        extend_str(&mut reason, " could not be opened; ");
        extend_str(&mut reason, text.as_str());
        extend_str(&mut reason, " exists");
        "text"
    } else {
        reason = to_chars("neither ");
        extend_str(&mut reason, node.as_str());
        extend_str(&mut reason, " nor ");
        extend_str(&mut reason, text.as_str());
        extend_str(&mut reason, " can be used");
        "none"
    };
    BackendInfo { would_select, reason: from_chars(&reason), probed_bus, ring_bytes, ebpf_built_in, btf_present }
}

/// The source is the best that the probe allows: the ring where it could be
/// mapped, else the node where it could be opened, else the text file where
/// it exists, and none only where nothing of these holds.
pub proof fn law_the_best_source_is_picked(node: Seq<char>, text: Seq<char>, probe: NodeProbe)
    ensures
        (selection(node, text, probe).0 == "mmap"@) == probe.mapped,
        (selection(node, text, probe).0 == "binary"@) == (!probe.mapped && probe.opened),
        (selection(node, text, probe).0 == "text"@) == (!probe.mapped && !probe.opened && probe.text_exists),
        (selection(node, text, probe).0 == "none"@) == (!probe.mapped && !probe.opened && !probe.text_exists),
{
    reveal_strlit("mmap");
    reveal_strlit("binary");
    reveal_strlit("text");
    reveal_strlit("none");
    assert("mmap"@[0] == 'm');
    assert("text"@[0] == 't');
    assert("none"@[0] == 'n');
    assert("binary"@[0] == 'b');
}

} // verus!
