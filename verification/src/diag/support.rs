//! A support run: what every collector finds, which files the bundle holds,
//! whether a capture is made, and what the summary says. Nothing here changes
//! the system: no modprobe, no prompts, no network. Everything that was read
//! of the host arrives as a value, and everything to write leaves as one.

use vstd::prelude::*;
use vstd::utf8::encode_utf8;

use crate::capture::sysfs::copy_bytes;
use crate::config::CONFIG_DIR_NAME;
use crate::device::text_of;
use crate::diag::attrs::{
    blob_facts, blob_notes, blobs_of, dump_attrs, dump_facts, dumped, read_descriptor_blobs, AttrDump, BlobFacts,
    DescriptorBlob,
};
use crate::diag::bundle::{BundleWriter, FileWrite};
use crate::diag::collect::{
    after_all, after_cmdline, after_config, config_notes, collect_build, collect_config, collect_host, host_facts, host_notes,
    opt_view, or_empty, tell, tells_build, tells_config, BuildFacts, BuildInfo, ConfigInfo, ConfigReads, HostInfo,
    HostRoots, TerminalInfo,
};
use crate::diag::files::value_at;
use crate::diag::inventory::{
    collect_usb_inventory, device_nodes, inventory_notes, tells_inventory, tells_usbids, usbids_info, UsbInventory,
};
use crate::diag::redact::{macs_masked, tally, Redactor};
use crate::diag::summary::{
    backend_line, backend_text, capture_line, capture_text, devices_line, devices_text, display_archive, host_line,
    host_text, redacted_line, redacted_text, static_views, usbmon_line, usbmon_text, version_line, version_text,
    shown_for, ArchiveState, CaptureState, Summary,
};
use crate::diag::usbmon::{
    collect_usbmon, probe_backend, tells_backend, tells_usbmon, usbmon_notes, BackendInfo, DevNode, NodeProbe,
    UsbmonInfo,
};
use crate::diag::utc::{stamp_text, utc_stamp};
use crate::diag::{notes, Note, NoteFacts};
use crate::fixture_replay::FixtureSource;
use crate::headless::export::RunRecord;
use crate::path::{below, holding_text, join_path, joined, last_name, name_of, parent_text};
use crate::sysfs::Node;
use crate::text::{ends, ends_with, extend_str, from_chars, string_views, to_chars};
use crate::usbids::UsbIds;
use crate::usbmon::UsbmonStatus;

verus! {

/// What a support run was asked.
pub struct SupportOpts {
    pub window_ms: u64,
    pub no_capture: bool,
    /// The command line as run (redacted when written).
    pub command: Vec<String>,
}

/// The bundle directory and the archive path (not yet written).
#[derive(Debug)]
pub struct Prepared {
    pub dir: String,
    pub archive: String,
}

/// Why a bundle has no place.
#[derive(Debug)]
pub enum PrepareFault {
    NoFileName(String),
    AlreadyExists(String),
}

impl PrepareFault {
    /// The sentence about a fault.
    pub fn message(&self) -> (r: String)
        ensures
            r@ == (match self {
                PrepareFault::NoFileName(target) => target@ + " has no file name"@,
                PrepareFault::AlreadyExists(dir) => dir@ + " already exists"@,
            }),
    {
        match self {
            PrepareFault::NoFileName(target) => {
                let mut v = to_chars(target.as_str());
                extend_str(&mut v, " has no file name");
                from_chars(&v)
            },
            PrepareFault::AlreadyExists(dir) => {
                let mut v = to_chars(dir.as_str());
                extend_str(&mut v, " already exists");
                from_chars(&v)
            },
        }
    }
}

/// A target names the archive itself.
pub open spec fn is_archive(target: Seq<char>) -> bool {
    ends(target, ".tar.gz"@)
}

/// The name of the bundle directory.
pub open spec fn bundle_name(now_unix: u64) -> Seq<char> {
    "usbtop-ng-support-"@ + stamp_text(now_unix)
}

/// The directory that holds the bundle directory and the archive, as given.
pub open spec fn place_of(target: Seq<char>) -> Seq<char> {
    if is_archive(target) {
        if parent_text(target).len() == 0 {
            "."@
        } else {
            parent_text(target)
        }
    } else {
        target
    }
}

/// The name of the archive; none when the target names none.
pub open spec fn archive_name(target: Seq<char>, now_unix: u64) -> Option<Seq<char>> {
    if is_archive(target) {
        name_of(target)
    } else {
        Some(bundle_name(now_unix) + ".tar.gz"@)
    }
}

fn bundle_name_at(now_unix: u64) -> (r: Vec<char>)
    ensures
        r@ == bundle_name(now_unix),
{
    let mut v = to_chars("usbtop-ng-support-");
    extend_str(&mut v, utc_stamp(now_unix).as_str());
    v
}

/// The directory to create for a target, and the name of the bundle directory
/// in it: a directory (existing or not) holds the bundle directory and the
/// archive; a name ending in `.tar.gz` names the archive and the bundle
/// directory goes beside it.
pub fn bundle_place(target: &str, now_unix: u64) -> (r: Result<(String, String), PrepareFault>)
    ensures
        match archive_name(target@, now_unix) {
            None => r matches Err(PrepareFault::NoFileName(t)) && t@ == target@,
            Some(_) => r matches Ok(p) && p.0@ == place_of(target@) && p.1@ == bundle_name(now_unix),
        },
{
    let name = from_chars(&bundle_name_at(now_unix));
    let v = to_chars(target);
    if !ends_with(&v, &to_chars(".tar.gz")) {
        return Ok((target.to_owned(), name));
    }
    if last_name(&v).is_none() {
        return Err(PrepareFault::NoFileName(target.to_owned()));
    }
    let parent = holding_text(target);
    if parent.as_str().is_empty() {
        Ok((".".to_owned(), name))
    } else {
        Ok((parent, name))
    }
}

/// The bundle directory and the archive for a target whose directory
/// ([`bundle_place`]) was created and resolved. A bundle directory that exists
/// is refused.
pub fn prepare_dir(target: &str, now_unix: u64, resolved: &str, exists: bool) -> (r: Result<Prepared, PrepareFault>)
    ensures
        match archive_name(target@, now_unix) {
            None => r matches Err(PrepareFault::NoFileName(t)) && t@ == target@,
            Some(archive) => if exists {
                r matches Err(PrepareFault::AlreadyExists(d)) && d@ == joined(resolved@, bundle_name(now_unix))
            } else {
                r matches Ok(p) && p.dir@ == joined(resolved@, bundle_name(now_unix)) && p.archive@ == joined(
                    resolved@,
                    archive,
                )
            },
        },
{
    let name = bundle_name_at(now_unix);
    let v = to_chars(target);
    let archive = if ends_with(&v, &to_chars(".tar.gz")) {
        match last_name(&v) {
            Some(n) => n,
            None => {
                return Err(PrepareFault::NoFileName(target.to_owned()));
            },
        }
    } else {
        let mut a = bundle_name_at(now_unix);
        extend_str(&mut a, ".tar.gz");
        a
    };
    let parent = to_chars(resolved);
    let dir = from_chars(&join_path(&parent, &name));
    if exists {
        return Err(PrepareFault::AlreadyExists(dir));
    }
    Ok(Prepared { dir, archive: from_chars(&join_path(&parent, &archive)) })
}

/// Every filesystem root the collectors read.
#[derive(Debug)]
pub struct Roots {
    pub sysfs_devices: String,
    pub proc: String,
    pub sys: String,
    pub etc: String,
    pub dev: String,
    pub debugfs_usbmon: String,
    pub dmi: String,
    pub device_tree: String,
    pub btf: String,
    pub thunderbolt: String,
    pub typec: String,
    pub power_delivery: String,
    pub home: Option<String>,
    pub config_dir: Option<String>,
    pub preferences_file: Option<String>,
    pub usbids_chain: Vec<String>,
}

impl Roots {
    /// The real roots, with the config directory below the home, and the
    /// preferences file that was given, else the one that was resolved.
    pub fn live(
        home: Option<&str>,
        cli_config: Option<&str>,
        preferences_path: Option<&str>,
        usbids_chain: Vec<String>,
    ) -> (r: Roots)
        ensures
            r.sysfs_devices@ == "/sys/bus/usb/devices"@,
            r.proc@ == "/proc"@,
            r.sys@ == "/sys"@,
            r.etc@ == "/etc"@,
            r.dev@ == "/dev"@,
            r.debugfs_usbmon@ == "/sys/kernel/debug/usb/usbmon"@,
            r.dmi@ == "/sys/devices/virtual/dmi/id"@,
            r.device_tree@ == "/proc/device-tree"@,
            r.btf@ == "/sys/kernel/btf/vmlinux"@,
            r.thunderbolt@ == "/sys/bus/thunderbolt/devices"@,
            r.typec@ == "/sys/class/typec"@,
            r.power_delivery@ == "/sys/class/usb_power_delivery"@,
            text_of(r.home) == opt_view(home),
            text_of(r.config_dir) == (match home {
                Some(h) => Some(joined(h@, CONFIG_DIR_NAME@)),
                None => None,
            }),
            text_of(r.preferences_file) == (match cli_config {
                Some(path) => Some(path@),
                None => opt_view(preferences_path),
            }),
            r.usbids_chain == usbids_chain,
    {
        Roots {
            sysfs_devices: "/sys/bus/usb/devices".to_owned(),
            proc: "/proc".to_owned(),
            sys: "/sys".to_owned(),
            etc: "/etc".to_owned(),
            dev: "/dev".to_owned(),
            debugfs_usbmon: "/sys/kernel/debug/usb/usbmon".to_owned(),
            dmi: "/sys/devices/virtual/dmi/id".to_owned(),
            device_tree: "/proc/device-tree".to_owned(),
            btf: "/sys/kernel/btf/vmlinux".to_owned(),
            thunderbolt: "/sys/bus/thunderbolt/devices".to_owned(),
            typec: "/sys/class/typec".to_owned(),
            power_delivery: "/sys/class/usb_power_delivery".to_owned(),
            home: match home {
                Some(h) => Some(h.to_owned()),
                None => None,
            },
            config_dir: match home {
                Some(h) => Some(from_chars(&join_path(&to_chars(h), &to_chars(CONFIG_DIR_NAME)))),
                None => None,
            },
            preferences_file: match cli_config {
                Some(path) => Some(path.to_owned()),
                None => match preferences_path {
                    Some(path) => Some(path.to_owned()),
                    None => None,
                },
            },
            usbids_chain,
        }
    }
}

/// Everything that comes from a live probe rather than a file under a root.
pub struct Environment {
    pub usbmon: Result<UsbmonStatus, String>,
    pub terminal: TerminalInfo,
    pub effective_uid: u32,
    pub under_sudo: bool,
    pub rust_log: Option<String>,
    pub virtualization: Option<String>,
    pub dmesg: Result<String, String>,
    pub usbids: Option<UsbIds>,
}

/// Why no live capture runs; none when one does.
pub open spec fn skip_reason(no_capture: bool, effective_uid: u32, usbmon: Result<UsbmonStatus, String>) -> Option<
    Seq<char>,
> {
    if no_capture {
        Some("skipped: --no-capture"@)
    } else if effective_uid != 0 {
        Some("skipped: not running as root; run with sudo to include a usbmon capture"@)
    } else if !(usbmon matches Ok(s) && s.usbmon_available) {
        Some("skipped: no usbmon interface is available; run 'sudo modprobe usbmon' first"@)
    } else {
        None
    }
}

impl Environment {
    /// Whether a live capture can run, or the reason it is skipped (the note's
    /// text and the summary's `capture:` line).
    pub fn capture_decision(&self, no_capture: bool) -> (r: Result<(), String>)
        ensures
            match r {
                Ok(_) => skip_reason(no_capture, self.effective_uid, self.usbmon) is None,
                Err(reason) => skip_reason(no_capture, self.effective_uid, self.usbmon) == Some(reason@),
            },
            r is Ok <==> !no_capture && self.effective_uid == 0 && (self.usbmon matches Ok(s) && s.usbmon_available),
    {
        if no_capture {
            return Err("skipped: --no-capture".to_owned());
        }
        if self.effective_uid != 0 {
            return Err("skipped: not running as root; run with sudo to include a usbmon capture".to_owned());
        }
        let available = match &self.usbmon {
            Ok(s) => s.usbmon_available,
            Err(_) => false,
        };
        if !available {
            return Err("skipped: no usbmon interface is available; run 'sudo modprobe usbmon' first".to_owned());
        }
        Ok(())
    }
}

/// What was read of the host for a support run.
pub struct Reads<'a> {
    pub host: HostRoots<'a>,
    pub dev_root: &'a str,
    pub dev: &'a Vec<DevNode>,
    pub debugfs_root: &'a str,
    pub debugfs: &'a Result<Vec<String>, String>,
    /// What was found of the node and the file of the bus to probe.
    pub probe: NodeProbe,
    pub btf_present: bool,
    pub sysfs_base: &'a str,
    pub sysfs: Result<&'a Vec<Node>, String>,
    /// The directories that the root hubs hang in.
    pub parents: &'a Vec<Node>,
    /// The usb.ids file in use, and the date in its header.
    pub usbids_active: Option<&'a str>,
    pub usbids_date: Option<(u16, u8, u8)>,
    pub thunderbolt_root: &'a str,
    pub thunderbolt: Result<&'a Vec<Node>, String>,
    pub typec_root: &'a str,
    pub typec: Result<&'a Vec<Node>, String>,
    pub power_delivery_root: &'a str,
    pub power_delivery: Result<&'a Vec<Node>, String>,
    pub config_dir: Option<&'a str>,
    pub preferences_file: Option<&'a str>,
    pub config: &'a ConfigReads,
}

/// What the collectors found.
pub struct Gathered {
    pub build: BuildInfo,
    pub host: HostInfo,
    pub usbmon: UsbmonInfo,
    pub backend: BackendInfo,
    /// The kernel log's lines about USB, MAC addresses masked.
    pub dmesg: Option<String>,
    pub inventory: UsbInventory,
    pub blobs: Vec<DescriptorBlob>,
    pub thunderbolt: Vec<AttrDump>,
    pub typec: Vec<AttrDump>,
    pub power_delivery: Vec<AttrDump>,
    pub config: ConfigInfo,
    pub notes: Vec<Note>,
}

/// How many levels of an attribute tree are recorded.
pub const DUMP_DEPTH: usize = 3;

/// The devices of a tree; none when it could not be read.
pub open spec fn tree_nodes(tree: Result<&Vec<Node>, String>) -> Seq<Node> {
    match tree {
        Ok(entries) => device_nodes(entries@),
        Err(_) => device_nodes(Seq::empty()),
    }
}

/// The redactor once it has masked the kernel log.
pub open spec fn after_macs(redactor: Redactor, dmesg: Result<String, String>) -> Redactor {
    match dmesg {
        Ok(text) => Redactor { mac_masks: tally(redactor.mac_masks, macs_masked(None, text@).1), ..redactor },
        Err(_) => redactor,
    }
}

/// The redactor once it has rewritten a path, where there is one.
pub open spec fn after_path(redactor: Redactor, path: Option<Seq<char>>) -> Redactor {
    match path {
        Some(p) => redactor.after(p),
        None => redactor,
    }
}

/// The redactor when the collectors start on the configuration.
pub open spec fn before_config(redactor: Redactor, opts: SupportOpts, reads: Reads, env: Environment) -> Redactor {
    after_path(before_usbids(redactor, opts, reads, env), opt_view(reads.usbids_active))
}

/// The redactor when the collectors start on the USB tree.
pub open spec fn before_usbids(redactor: Redactor, opts: SupportOpts, reads: Reads, env: Environment) -> Redactor {
    after_macs(
        after_cmdline(
            after_all(redactor, string_views(opts.command@)),
            value_at(reads.host.proc_root@, "cmdline"@),
        ),
        env.dmesg,
    )
}

/// What all collectors note, in order.
pub open spec fn gathered_notes(reads: Reads, env: Environment) -> Seq<NoteFacts> {
    host_notes(reads.host, text_of(env.virtualization)) + usbmon_notes(env.usbmon, *reads.debugfs) + (
    match env.dmesg {
        Ok(_) => Seq::empty(),
        Err(reason) => seq![NoteFacts { item: "dmesg"@, reason: reason@ }],
    }) + inventory_notes(reads.sysfs_base@, reads.sysfs) + blob_notes(tree_nodes(reads.sysfs)) + dumped(
        reads.thunderbolt_root@,
        reads.thunderbolt,
        DUMP_DEPTH as nat,
    ).notes + dumped(reads.typec_root@, reads.typec, DUMP_DEPTH as nat).notes + dumped(
        reads.power_delivery_root@,
        reads.power_delivery,
        DUMP_DEPTH as nat,
    ).notes + config_notes(opt_view(reads.config_dir), *reads.config)
}

/// What the collectors find: each says what it is to say of what was read.
pub open spec fn gathers(
    g: Gathered,
    opts: SupportOpts,
    reads: Reads,
    env: Environment,
    build: BuildFacts,
    redactor: Redactor,
) -> bool {
    &&& tells_build(g.build, build, opts.command, env.rust_log, env.effective_uid, env.under_sudo, redactor)
    &&& g.host@ == host_facts(reads.host, text_of(env.virtualization))
    &&& tells_usbmon(
        g.usbmon,
        usbmon_notes(env.usbmon, *reads.debugfs),
        env.usbmon,
        reads.dev_root@,
        reads.dev@,
        *reads.debugfs,
    )
    &&& tells_backend(
        g.backend,
        g.usbmon.available_buses@,
        reads.dev_root@,
        reads.debugfs_root@,
        reads.probe,
        build.ebpf,
        reads.btf_present,
    )
    &&& text_of(g.dmesg) == (match env.dmesg {
        Ok(text) => Some(macs_masked(None, text@).0),
        Err(_) => None,
    })
    &&& tells_usbids(
        g.inventory.usbids,
        opt_view(reads.usbids_active),
        reads.usbids_date,
        before_usbids(redactor, opts, reads, env),
    )
    &&& tells_inventory(
        g.inventory,
        inventory_notes(reads.sysfs_base@, reads.sysfs),
        reads.sysfs_base@,
        reads.sysfs,
        reads.parents@,
        env.usbids,
        g.inventory.usbids,
    )
    &&& blob_facts(g.blobs@) == blobs_of(tree_nodes(reads.sysfs))
    &&& dump_facts(g.thunderbolt@) == dumped(reads.thunderbolt_root@, reads.thunderbolt, DUMP_DEPTH as nat).dumps
    &&& dump_facts(g.typec@) == dumped(reads.typec_root@, reads.typec, DUMP_DEPTH as nat).dumps
    &&& dump_facts(g.power_delivery@) == dumped(
        reads.power_delivery_root@,
        reads.power_delivery,
        DUMP_DEPTH as nat,
    ).dumps
    &&& tells_config(
        g.config,
        config_notes(opt_view(reads.config_dir), *reads.config),
        opt_view(reads.config_dir),
        opt_view(reads.preferences_file),
        *reads.config,
        env.under_sudo,
        before_config(redactor, opts, reads, env),
    )
    &&& notes(g.notes@) == gathered_notes(reads, env)
}

fn add_notes(said: &mut Vec<Note>, more: Vec<Note>)
    ensures
        notes(final(said)@) == notes(old(said)@) + notes(more@),
{
    let mut more = more;
    let ghost before = notes(said@);
    let ghost tail = notes(more@);
    said.append(&mut more);
    assert(notes(said@) =~= before + tail);
}

fn same_tree<'a>(tree: &Result<&'a Vec<Node>, String>) -> (r: Result<&'a Vec<Node>, String>)
    ensures
        match *tree {
            Ok(entries) => r == Ok::<&'a Vec<Node>, String>(entries),
            Err(e) => r matches Err(f) && f@ == e@,
        },
{
    match tree {
        Ok(entries) => Ok(*entries),
        Err(e) => Err(e.clone()),
    }
}

fn same_text(t: &Option<String>) -> (r: Option<String>)
    ensures
        text_of(r) == text_of(*t),
{
    match t {
        Some(t) => Some(t.clone()),
        None => None,
    }
}

/// Runs every collector over what was read of the host. Everything that is
/// missing becomes a note.
pub fn run_support(
    opts: &SupportOpts,
    reads: &Reads,
    env: &Environment,
    build: BuildFacts,
    redactor: &mut Redactor,
) -> (r: Gathered)
    ensures
        gathers(r, *opts, *reads, *env, build, *old(redactor)),
        *final(redactor) == after_config(
            before_config(*old(redactor), *opts, *reads, *env),
            opt_view(reads.config_dir),
            opt_view(reads.preferences_file),
            *reads.config,
        ),
{
    let ghost start = *redactor;
    let ebpf = build.ebpf;
    let build = collect_build(
        build,
        &opts.command,
        same_text(&env.rust_log),
        env.effective_uid,
        env.under_sudo,
        redactor,
    );
    let (host, host_said) = collect_host(&reads.host, same_text(&env.virtualization), redactor);
    let mut said = host_said;
    let (usbmon, usbmon_said) = collect_usbmon(&env.usbmon, reads.dev_root, reads.dev, reads.debugfs);
    add_notes(&mut said, usbmon_said);
    let backend = probe_backend(
        &usbmon.available_buses,
        reads.dev_root,
        reads.debugfs_root,
        &reads.probe,
        ebpf,
        reads.btf_present,
    );
    let dmesg = match &env.dmesg {
        Ok(text) => {
            assert(notes(said@) + Seq::<NoteFacts>::empty() =~= notes(said@));
            Some(redactor.mac_addresses(text.as_str()))
        },
        Err(reason) => {
            tell(&mut said, "dmesg", reason.as_str());
            None
        },
    };
    assert(*redactor == before_usbids(start, *opts, *reads, *env));
    let names = usbids_info(reads.usbids_active, reads.usbids_date, redactor);
    let (inventory, inventory_said) = collect_usb_inventory(
        reads.sysfs_base,
        same_tree(&reads.sysfs),
        reads.parents,
        match &env.usbids {
            Some(db) => Some(db),
            None => None,
        },
        names,
    );
    add_notes(&mut said, inventory_said);
    let (blobs, blobs_said) = match &reads.sysfs {
        Ok(entries) => read_descriptor_blobs(entries),
        Err(_) => read_descriptor_blobs(&Vec::new()),
    };
    add_notes(&mut said, blobs_said);
    let (thunderbolt, thunderbolt_said) = dump_attrs(reads.thunderbolt_root, same_tree(&reads.thunderbolt), DUMP_DEPTH);
    add_notes(&mut said, thunderbolt_said);
    let (typec, typec_said) = dump_attrs(reads.typec_root, same_tree(&reads.typec), DUMP_DEPTH);
    add_notes(&mut said, typec_said);
    let (power_delivery, power_said) = dump_attrs(
        reads.power_delivery_root,
        same_tree(&reads.power_delivery),
        DUMP_DEPTH,
    );
    add_notes(&mut said, power_said);
    let (config, config_said) = collect_config(
        reads.config_dir,
        reads.preferences_file,
        reads.config,
        env.under_sudo,
        redactor,
    );
    add_notes(&mut said, config_said);
    assert(notes(said@) == gathered_notes(*reads, *env));
    Gathered {
        build,
        host,
        usbmon,
        backend,
        dmesg,
        inventory,
        blobs,
        thunderbolt,
        typec,
        power_delivery,
        config,
        notes: said,
    }
}

/// What a file of the bundle holds.
#[derive(Debug)]
pub enum Body {
    /// A document of its own, written as TOML.
    Document,
    Text(String),
    Bytes(Vec<u8>),
}

/// One file of the bundle that comes from what the collectors found.
#[derive(Debug)]
pub struct Part {
    pub rel: String,
    pub body: Body,
}

/// What a `Part` says.
pub enum PartFacts {
    Document(Seq<char>),
    Text(Seq<char>, Seq<char>),
    Bytes(Seq<char>, Seq<u8>),
}

impl View for Part {
    type V = PartFacts;

    open spec fn view(&self) -> PartFacts {
        match self.body {
            Body::Document => PartFacts::Document(self.rel@),
            Body::Text(t) => PartFacts::Text(self.rel@, t@),
            Body::Bytes(b) => PartFacts::Bytes(self.rel@, b@),
        }
    }
}

/// What several parts say.
pub open spec fn part_facts(v: Seq<Part>) -> Seq<PartFacts> {
    v.map_values(|p: Part| p@)
}

/// The file of a text, where there is one.
pub open spec fn text_part(rel: Seq<char>, text: Option<Seq<char>>) -> Seq<PartFacts> {
    match text {
        Some(t) => seq![PartFacts::Text(rel, t)],
        None => Seq::empty(),
    }
}

/// The files of one device's blobs.
pub open spec fn blob_part(blob: BlobFacts) -> Seq<PartFacts> {
    seq![PartFacts::Bytes("inventory/descriptors/"@ + blob.port_chain + ".bin"@, blob.descriptors)] + (
    match blob.bos {
        Some(b) => seq![PartFacts::Bytes("inventory/descriptors/"@ + blob.port_chain + ".bos.bin"@, b)],
        None => Seq::empty(),
    })
}

/// The files of several devices' blobs.
pub open spec fn blob_parts(blobs: Seq<BlobFacts>) -> Seq<PartFacts>
    decreases blobs.len(),
{
    if blobs.len() == 0 {
        Seq::empty()
    } else {
        blob_parts(blobs.drop_last()) + blob_part(blobs.last())
    }
}

/// The files that come from what the collectors found, in the order in which
/// they are written.
pub open spec fn bundle_parts(g: Gathered) -> Seq<PartFacts> {
    seq![
        PartFacts::Document("build.toml"@),
        PartFacts::Document("host.toml"@),
        PartFacts::Document("usbmon.toml"@),
    ] + text_part("dmesg-usb.txt"@, text_of(g.dmesg)) + seq![PartFacts::Document("inventory/usb.toml"@)]
        + blob_parts(blob_facts(g.blobs@)) + seq![
        PartFacts::Document("inventory/thunderbolt.toml"@),
        PartFacts::Document("inventory/typec.toml"@),
        PartFacts::Document("config/config.toml"@),
    ] + text_part("config/preferences.toml"@, text_of(g.config.preferences)) + text_part(
        "config/internal-devices.toml"@,
        text_of(g.config.internal_devices),
    ) + seq![PartFacts::Document("terminal.toml"@)]
}

fn add_document(parts: &mut Vec<Part>, rel: &str)
    ensures
        part_facts(final(parts)@) == part_facts(old(parts)@) + seq![PartFacts::Document(rel@)],
{
    let ghost before = part_facts(parts@);
    parts.push(Part { rel: rel.to_owned(), body: Body::Document });
    assert(part_facts(parts@) =~= before + seq![PartFacts::Document(rel@)]);
}

fn add_text(parts: &mut Vec<Part>, rel: &str, text: &Option<String>)
    ensures
        part_facts(final(parts)@) == part_facts(old(parts)@) + text_part(rel@, text_of(*text)),
{
    let ghost before = part_facts(parts@);
    if let Some(t) = text {
        parts.push(Part { rel: rel.to_owned(), body: Body::Text(t.clone()) });
    }
    assert(part_facts(parts@) =~= before + text_part(rel@, text_of(*text)));
}

fn add_blob(parts: &mut Vec<Part>, blob: &DescriptorBlob)
    ensures
        part_facts(final(parts)@) == part_facts(old(parts)@) + blob_part(blob@),
{
    let ghost before = part_facts(parts@);
    let mut rel = to_chars("inventory/descriptors/");
    extend_str(&mut rel, blob.port_chain.as_str());
    extend_str(&mut rel, ".bin");
    parts.push(Part { rel: from_chars(&rel), body: Body::Bytes(copy_bytes(&blob.descriptors)) });
    if let Some(bos) = &blob.bos {
        let mut rel = to_chars("inventory/descriptors/");
        extend_str(&mut rel, blob.port_chain.as_str());
        extend_str(&mut rel, ".bos.bin");
        parts.push(Part { rel: from_chars(&rel), body: Body::Bytes(copy_bytes(bos)) });
    }
    assert(part_facts(parts@) =~= before + blob_part(blob@));
}

impl Gathered {
    /// The files that come from what the collectors found, in the order in
    /// which they are written.
    pub fn parts(&self) -> (r: Vec<Part>)
        ensures
            part_facts(r@) == bundle_parts(*self),
    {
        let mut parts: Vec<Part> = Vec::new();
        assert(part_facts(parts@) =~= Seq::<PartFacts>::empty());
        add_document(&mut parts, "build.toml");
        add_document(&mut parts, "host.toml");
        add_document(&mut parts, "usbmon.toml");
        add_text(&mut parts, "dmesg-usb.txt", &self.dmesg);
        add_document(&mut parts, "inventory/usb.toml");
        let ghost front = part_facts(parts@);
        let ghost blobs = blob_facts(self.blobs@);
        let mut i: usize = 0;
        assert(blobs.take(0) =~= Seq::<BlobFacts>::empty());
        assert(front + blob_parts(blobs.take(0)) =~= front);
        while i < self.blobs.len()
            invariant
                i <= self.blobs@.len(),
                blobs == blob_facts(self.blobs@),
                part_facts(parts@) == front + blob_parts(blobs.take(i as int)),
            decreases self.blobs@.len() - i,
        {
            assert(blobs.take(i + 1).drop_last() =~= blobs.take(i as int));
            assert(blobs[i as int] == self.blobs@[i as int]@);
            add_blob(&mut parts, &self.blobs[i]);
            assert(part_facts(parts@) =~= front + blob_parts(blobs.take(i + 1)));
            i = i + 1;
        }
        assert(blobs.take(blobs.len() as int) =~= blobs);
        add_document(&mut parts, "inventory/thunderbolt.toml");
        add_document(&mut parts, "inventory/typec.toml");
        add_document(&mut parts, "config/config.toml");
        add_text(&mut parts, "config/preferences.toml", &self.config.preferences);
        add_text(&mut parts, "config/internal-devices.toml", &self.config.internal_devices);
        add_document(&mut parts, "terminal.toml");
        assert(part_facts(parts@) =~= bundle_parts(*self));
        parts
    }
}

/// The bytes of a part: a text, and the text of a document, pass through the
/// redactor; bytes are written as they are.
pub fn part_write(writer: &mut BundleWriter, part: &Part, document: &str) -> (r: FileWrite)
    ensures
        r.rel@ == part.rel@,
        r.path@ == joined(old(writer).root@, part.rel@),
        match part.body {
            Body::Document => r.bytes@ == encode_utf8(old(writer).redactor.masks(document@).text) && *final(writer) == (
            BundleWriter { redactor: old(writer).redactor.after(document@), ..*old(writer) }),
            Body::Text(text) => r.bytes@ == encode_utf8(old(writer).redactor.masks(text@).text) && *final(writer) == (
            BundleWriter { redactor: old(writer).redactor.after(text@), ..*old(writer) }),
            Body::Bytes(bytes) => r.bytes@ == bytes@ && *final(writer) == *old(writer),
        },
{
    match &part.body {
        Body::Document => writer.write_text(part.rel.as_str(), document),
        Body::Text(text) => writer.write_text(part.rel.as_str(), text.as_str()),
        Body::Bytes(bytes) => writer.write_bytes(part.rel.as_str(), bytes),
    }
}

/// What to do next about the fixture.
#[derive(Debug)]
pub enum FixtureTask {
    /// Capture live.
    Capture,
    /// Write a static fixture from the sysfs tree alone, clearing first what
    /// a failed capture left.
    Assemble { clear: bool, state: CaptureState },
    /// The fixture is there.
    Done(CaptureState),
}

/// What a live capture brought.
#[derive(Debug)]
pub struct CaptureOutcome {
    pub sources: Vec<FixtureSource>,
    pub events: u64,
    pub binary_kernel_dropped: Option<u64>,
}

/// The first task: a live capture when [`Environment::capture_decision`]
/// allows it, else a static fixture.
pub fn write_fixture(decision: Result<(), String>) -> (r: FixtureTask)
    ensures
        match decision {
            Ok(_) => r is Capture,
            Err(reason) => r == (FixtureTask::Assemble { clear: false, state: CaptureState::Skipped(reason) }),
        },
{
    match decision {
        Ok(_) => FixtureTask::Capture,
        Err(reason) => FixtureTask::Assemble { clear: false, state: CaptureState::Skipped(reason) },
    }
}

/// The task after a live capture: none when it succeeded, else a static
/// fixture.
pub fn after_capture(window_ms: u64, outcome: Result<CaptureOutcome, String>) -> (r: FixtureTask)
    ensures
        match outcome {
            Ok(o) => r == FixtureTask::Done(
                CaptureState::Captured {
                    window_ms,
                    sources: o.sources,
                    events: o.events,
                    kernel_dropped: o.binary_kernel_dropped,
                },
            ),
            Err(e) => r matches FixtureTask::Assemble { clear: true, state: CaptureState::Failed(reason) } && reason@
                == "failed: "@ + e@,
        },
{
    match outcome {
        Ok(o) => FixtureTask::Done(
            CaptureState::Captured {
                window_ms,
                sources: o.sources,
                events: o.events,
                kernel_dropped: o.binary_kernel_dropped,
            },
        ),
        Err(e) => {
            let mut reason = to_chars("failed: ");
            extend_str(&mut reason, e.as_str());
            FixtureTask::Assemble { clear: true, state: CaptureState::Failed(from_chars(&reason)) }
        },
    }
}

/// Appends the "static fixture written instead" clause to a failed state's
/// reason, once the static fixture has actually been written: never claimed
/// before that, since the fallback can itself fail. A skipped state (no
/// capture was attempted) is left untouched.
pub fn note_static_fixture_written(state: &mut CaptureState)
    ensures
        match *old(state) {
            CaptureState::Failed(reason) => *final(state) matches CaptureState::Failed(more) && more@ == reason@
                + "; static fixture written instead"@,
            _ => *final(state) == *old(state),
        },
{
    let longer = match state {
        CaptureState::Failed(reason) => {
            let mut v = to_chars(reason.as_str());
            extend_str(&mut v, "; static fixture written instead");
            from_chars(&v)
        },
        _ => {
            return ;
        },
    };
    *state = CaptureState::Failed(longer);
}

/// What is said of a static fixture that was tried: the state afterwards and
/// the notes. One that could not be written is noted, and so is why there was
/// no capture.
pub open spec fn assembled_reason(state: CaptureState, outcome: Result<(), String>) -> Seq<char> {
    match state {
        CaptureState::Failed(reason) => match outcome {
            Ok(_) => reason@ + "; static fixture written instead"@,
            Err(_) => reason@,
        },
        CaptureState::Skipped(reason) => reason@,
        _ => Seq::empty(),
    }
}

/// The state and the notes after a static fixture was tried.
pub fn after_assembly(state: CaptureState, outcome: Result<(), String>, said: &mut Vec<Note>) -> (r: CaptureState)
    requires
        !(state is Captured),
    ensures
        state is Skipped ==> r == state,
        state is Failed ==> r is Failed,
        capture_text(r) == assembled_reason(state, outcome),
        notes(final(said)@) == notes(old(said)@) + (match outcome {
            Ok(_) => Seq::empty(),
            Err(e) => seq![
                NoteFacts { item: "fixture"@, reason: "could not write the static fixture: "@ + e@ },
            ],
        }) + seq![NoteFacts { item: "capture"@, reason: assembled_reason(state, outcome) }],
{
    let mut state = state;
    match outcome {
        Ok(_) => {
            assert(notes(said@) + Seq::<NoteFacts>::empty() =~= notes(said@));
            note_static_fixture_written(&mut state);
        },
        Err(e) => {
            let mut reason = to_chars("could not write the static fixture: ");
            extend_str(&mut reason, e.as_str());
            tell(said, "fixture", from_chars(&reason).as_str());
        },
    }
    match &state {
        CaptureState::Skipped(reason) => {
            tell(said, "capture", reason.as_str());
        },
        CaptureState::Failed(reason) => {
            tell(said, "capture", reason.as_str());
        },
        CaptureState::Captured { .. } => {},
    }
    state
}

/// The source to replay: the binary one when it was captured, else the first;
/// none for a static fixture.
pub open spec fn replayed_source(state: CaptureState) -> Option<FixtureSource> {
    match state {
        CaptureState::Captured { sources, .. } => if sources@.contains(FixtureSource::Binary) {
            Some(FixtureSource::Binary)
        } else if sources@.len() > 0 {
            Some(sources@[0])
        } else {
            None
        },
        _ => None,
    }
}

/// The source to replay.
pub fn replay_source(state: &CaptureState) -> (r: Option<FixtureSource>)
    ensures
        r == replayed_source(*state),
{
    match state {
        CaptureState::Captured { sources, .. } => {
            let mut i: usize = 0;
            while i < sources.len()
                invariant
                    i <= sources@.len(),
                    *state is Captured,
                    state->sources == *sources,
                    forall|j: int| 0 <= j < i ==> sources@[j] != FixtureSource::Binary,
                decreases sources@.len() - i,
            {
                if sources[i] == FixtureSource::Binary {
                    assert(sources@.contains(sources@[i as int]));
                    return Some(FixtureSource::Binary);
                }
                i = i + 1;
            }
            if sources.len() > 0 {
                Some(sources[0])
            } else {
                None
            }
        },
        _ => None,
    }
}

fn copy_texts(v: &Vec<String>) -> (r: Vec<String>)
    ensures
        string_views(r@) == string_views(v@),
{
    let mut out: Vec<String> = Vec::new();
    let mut i: usize = 0;
    while i < v.len()
        invariant
            i <= v@.len(),
            out@.len() == i,
            forall|j: int| 0 <= j < i ==> (#[trigger] out@[j])@ == v@[j]@,
        decreases v@.len() - i,
    {
        out.push(v[i].clone());
        i = i + 1;
    }
    assert(string_views(out@) =~= string_views(v@));
    out
}

impl Gathered {
    /// The run record of the report that a replay of the fixture gives.
    pub fn run_record(&self, window_ms: u64, now_unix: u64) -> (r: RunRecord)
        ensures
            r.record@ == "run"@,
            r.usbtop_ng@ == self.build.version@,
            string_views(r.features@) == static_views(self.build.features@),
            r.started_unix == now_unix,
            r.window_ms == window_ms,
            !r.batch,
            r.filters@.len() == 0,
            string_views(r.command@) == string_views(self.build.command@),
            r.backend@ == self.backend.would_select@,
            r.kernel@ == self.host.kernel@,
            r.os@ == self.host.os@,
            r.arch@ == self.build.arch@,
            r.buses@ == self.usbmon.available_buses@,
    {
        let mut features: Vec<String> = Vec::new();
        let mut i: usize = 0;
        while i < self.build.features.len()
            invariant
                i <= self.build.features@.len(),
                features@.len() == i,
                forall|j: int| 0 <= j < i ==> (#[trigger] features@[j])@ == self.build.features@[j]@,
            decreases self.build.features@.len() - i,
        {
            features.push(self.build.features[i].to_owned());
            i = i + 1;
        }
        assert(string_views(features@) =~= static_views(self.build.features@));
        RunRecord {
            record: "run",
            usbtop_ng: self.build.version.clone(),
            features,
            started_unix: now_unix,
            window_ms,
            batch: false,
            filters: Vec::new(),
            command: copy_texts(&self.build.command),
            backend: self.backend.would_select.to_owned(),
            kernel: self.host.kernel.clone(),
            os: self.host.os.clone(),
            arch: self.build.arch.clone(),
            buses: copy_bytes(&self.usbmon.available_buses),
        }
    }
}

/// A note as the redactor rewrites it.
pub open spec fn note_masked(redactor: Redactor, n: NoteFacts) -> NoteFacts {
    NoteFacts { item: redactor.masks(n.item).text, reason: redactor.masks(n.reason).text }
}

/// The redactor once it has rewritten a note.
pub open spec fn after_note(redactor: Redactor, n: NoteFacts) -> Redactor {
    redactor.after(n.item).after(n.reason)
}

/// Notes as the redactor rewrites them.
pub open spec fn notes_masked(redactor: Redactor, v: Seq<NoteFacts>) -> Seq<NoteFacts> {
    v.map_values(|n: NoteFacts| note_masked(redactor, n))
}

/// The redactor once it has rewritten several notes.
pub open spec fn after_notes(redactor: Redactor, v: Seq<NoteFacts>) -> Redactor
    decreases v.len(),
{
    if v.len() == 0 {
        redactor
    } else {
        after_note(after_notes(redactor, v.drop_last()), v.last())
    }
}

/// Rewrites every note. A collector's note can carry a path (a "could not
/// read" reason or an item that names an unreadable file under the home
/// directory), so each passes through the redactor before it reaches the
/// summary or the manifest.
pub fn mask_notes(said: &Vec<Note>, redactor: &mut Redactor) -> (r: Vec<Note>)
    ensures
        notes(r@) == notes_masked(*old(redactor), notes(said@)),
        *final(redactor) == after_notes(*old(redactor), notes(said@)),
{
    let ghost start = *redactor;
    let ghost all = notes(said@);
    let mut out: Vec<Note> = Vec::new();
    let mut i: usize = 0;
    assert(all.take(0) =~= Seq::<NoteFacts>::empty());
    while i < said.len()
        invariant
            i <= said@.len(),
            all == notes(said@),
            out@.len() == i,
            forall|j: int| 0 <= j < i ==> (#[trigger] out@[j])@ == note_masked(start, all[j]),
            *redactor == after_notes(start, all.take(i as int)),
            redactor.home == start.home,
            redactor.user_name == start.user_name,
        decreases said@.len() - i,
    {
        assert(all.take(i + 1).drop_last() =~= all.take(i as int));
        assert(all[i as int] == said@[i as int]@);
        let item = redactor.text(said[i].item.as_str());
        let reason = redactor.text(said[i].reason.as_str());
        out.push(Note { item, reason });
        i = i + 1;
    }
    assert(all.take(all.len() as int) =~= all);
    assert(notes(out@) =~= notes_masked(start, all));
    out
}

fn copy_notes(v: &Vec<Note>) -> (r: Vec<Note>)
    ensures
        notes(r@) == notes(v@),
{
    let mut out: Vec<Note> = Vec::new();
    let mut i: usize = 0;
    while i < v.len()
        invariant
            i <= v@.len(),
            out@.len() == i,
            forall|j: int| 0 <= j < i ==> (#[trigger] out@[j])@ == v@[j]@,
        decreases v@.len() - i,
    {
        out.push(Note { item: v[i].item.clone(), reason: v[i].reason.clone() });
        i = i + 1;
    }
    assert(notes(out@) =~= notes(v@));
    out
}

impl Gathered {
    /// The summary before the archive is made. The files are those recorded so
    /// far, plus the summary itself, the manifest and the log.
    pub fn summary(&self, dir: &str, state: &CaptureState, writer: &BundleWriter, said: &Vec<Note>, log_present: bool) -> (r:
        Summary)
        requires
            writer.files.len() + 3 <= usize::MAX,
        ensures
            r.dir_name@ == or_empty(name_of(dir@)),
            r.archive is Pending,
            r.file_count == writer.files@.len() + 2 + (if log_present {
                1int
            } else {
                0int
            }),
            r.version@ == version_text(self.build.version@, static_views(self.build.features@), self.build.arch@),
            r.host@ == host_text(self.host.kernel@, self.host.os@, self.host.board@),
            r.usbmon@ == usbmon_text(self.usbmon, self.build.running_as_root),
            r.backend@ == backend_text(self.backend),
            r.capture@ == capture_text(*state),
            r.devices@ == devices_text(self.inventory),
            notes(r.notes@) == notes(said@),
            r.redacted@ == redacted_text(writer.redactor.fired_rules()),
    {
        let dir_name = match last_name(&to_chars(dir)) {
            Some(n) => from_chars(&n),
            None => from_chars(&Vec::new()),
        };
        assert(dir_name@ =~= or_empty(name_of(dir@)));
        let count = writer.files.len() + 2;
        Summary {
            dir_name,
            archive: ArchiveState::Pending,
            file_count: if log_present {
                count + 1
            } else {
                count
            },
            version: version_line(&self.build),
            host: host_line(&self.host),
            usbmon: usbmon_line(&self.usbmon, self.build.running_as_root),
            backend: backend_line(&self.backend),
            capture: capture_line(state),
            devices: devices_line(&self.inventory),
            notes: copy_notes(said),
            redacted: redacted_line(&writer.redactor.summary()),
        }
    }
}

/// How an archive is shown: relative to the current directory when it lives
/// under it, else with the home rule applied.
pub open spec fn archive_shown(archive: Seq<char>, cwd: Option<&str>, home: Option<&str>) -> Seq<char> {
    match cwd {
        Some(c) => match below(archive, c@) {
            Some(rest) => "./"@ + rest,
            None => shown_for(archive, home),
        },
        None => shown_for(archive, home),
    }
}

/// The summary once the archive was tried: where it is and how large, or the
/// rewritten note about why there is none.
pub fn archived(
    summary: Summary,
    archive: &str,
    cwd: Option<&str>,
    home: Option<&str>,
    outcome: Result<u64, Note>,
    redactor: &mut Redactor,
) -> (r: Summary)
    ensures
        match outcome {
            Ok(bytes) => {
                &&& r.archive matches ArchiveState::Written(shown, size) && shown@ == archive_shown(
                    archive@,
                    cwd,
                    home,
                ) && size == bytes
                &&& r == (Summary { archive: r.archive, ..summary })
                &&& *final(redactor) == *old(redactor)
            },
            Err(n) => {
                &&& r.archive matches ArchiveState::Missing(reason) && reason@ == old(redactor).masks(n.reason@).text
                &&& notes(r.notes@) == notes(summary.notes@).push(note_masked(*old(redactor), n@))
                &&& r == (Summary { archive: r.archive, notes: r.notes, ..summary })
                &&& *final(redactor) == after_note(*old(redactor), n@)
            },
        },
{
    let mut summary = summary;
    match outcome {
        Ok(bytes) => {
            summary.archive = ArchiveState::Written(display_archive(archive, cwd, home), bytes);
            summary
        },
        Err(n) => {
            let ghost start = *redactor;
            let item = redactor.text(n.item.as_str());
            let reason = redactor.text(n.reason.as_str());
            summary.archive = ArchiveState::Missing(reason.clone());
            let ghost before = notes(summary.notes@);
            summary.notes.push(Note { item, reason });
            assert(notes(summary.notes@) =~= before.push(note_masked(start, n@)));
            summary
        },
    }
}

} // verus!
