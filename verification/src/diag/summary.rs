//! The summary of a support bundle: one line per subject, meant to be pasted
//! into a bug report.

pub mod laws;

use vstd::prelude::*;

use crate::capture::meta::source_tags;
use crate::decimal::{at_most, lemma_size_le, measure, size_le, size_of};
use crate::diag::collect::{BuildInfo, HostInfo};
use crate::diag::inventory::{ControllerInfo, UsbDeviceInfo, UsbInventory};
use crate::diag::redact::{
    home_masked, is_path_char, kept_home, kept_name, law_a_path_below_the_home_is_shown_below_a_tilde, rule_counts,
    text_masked, Redactor,
};
use crate::diag::usbmon::{BackendInfo, UsbmonInfo};
use crate::diag::{notes, Note, NoteFacts};
use crate::fixture_replay::FixtureSource;
use crate::number::{
    decimal, fixed_text, padded_decimal, round_ratio, rounded, to_decimal, to_fixed, to_padded_decimal, to_wide_decimal,
};
use crate::order::{lemma_sorted_mapped, rank, sort, sorted_by, Ranked};
use crate::path::{below, strip_prefix};
use crate::text::{
    char_views, extend, extend_str, from_chars, join, join_with, starts, starts_with, str_eq, to_chars,
};

verus! {

/// What happened to the capture.
#[derive(Debug)]
pub enum CaptureState {
    Captured { window_ms: u64, sources: Vec<FixtureSource>, events: u64, kernel_dropped: Option<u64> },
    Skipped(String),
    Failed(String),
}

/// Where the archive stands: not yet attempted (the copy of the summary
/// inside the bundle), written, or not producible. What `Written` holds is
/// how the archive is shown ([`display_archive`]), never the raw absolute
/// path: the summary is meant to be pasted into a bug report, so it must
/// never carry the reporter's home directory or user name.
#[derive(Debug)]
pub enum ArchiveState {
    Pending,
    Written(String, u64),
    Missing(String),
}

/// What the summary says.
#[derive(Debug)]
pub struct Summary {
    pub dir_name: String,
    pub archive: ArchiveState,
    pub file_count: usize,
    pub version: String,
    pub host: String,
    pub usbmon: String,
    pub backend: String,
    pub capture: String,
    pub devices: String,
    pub notes: Vec<Note>,
    pub redacted: String,
}

/// `n` in decimal with a comma before every three digits.
pub open spec fn comma_text(n: nat) -> Seq<char>
    decreases n,
{
    if n < 1000 {
        decimal(n)
    } else {
        comma_text(n / 1000).push(',') + padded_decimal(n % 1000, 3)
    }
}

/// `n` in decimal with a comma before every three digits.
pub fn with_commas(n: u64) -> (r: String)
    ensures
        r@ == comma_text(n as nat),
{
    from_chars(&grouped(n))
}

fn grouped(n: u64) -> (r: Vec<char>)
    ensures
        r@ == comma_text(n as nat),
    decreases n,
{
    if n < 1000 {
        to_decimal(n)
    } else {
        let mut v = grouped(n / 1000);
        v.push(',');
        extend(&mut v, &to_padded_decimal(n % 1000, 3));
        v
    }
}

/// A size in kilobytes, or in megabytes with one decimal from a million bytes
/// on, rounded to the nearest.
pub open spec fn size_text(bytes: nat) -> Seq<char> {
    if bytes < 1_000_000 {
        decimal((bytes + 500) / 1000) + " KB"@
    } else {
        fixed_text(rounded(bytes, 100_000), 10, 1) + " MB"@
    }
}

/// A size in kilobytes, or in megabytes with one decimal.
pub fn format_size(bytes: u64) -> (r: String)
    ensures
        r@ == size_text(bytes as nat),
{
    if bytes < 1_000_000 {
        let mut v = to_decimal((bytes + 500) / 1000);
        extend_str(&mut v, " KB");
        from_chars(&v)
    } else {
        let mut v = to_fixed(round_ratio(bytes as u128, 100_000), 10, 1);
        extend_str(&mut v, " MB");
        from_chars(&v)
    }
}

/// The texts of static strings.
pub open spec fn static_views(v: Seq<&'static str>) -> Seq<Seq<char>> {
    v.map_values(|s: &'static str| s@)
}

/// The line about the build.
pub open spec fn version_text(version: Seq<char>, features: Seq<Seq<char>>, arch: Seq<char>) -> Seq<char> {
    "usbtop-ng "@ + version + " (features: "@ + (if features.len() == 0 {
        "none"@
    } else {
        join_with(features, " "@)
    }) + ") "@ + arch
}

/// The line about the build.
pub fn version_line(build: &BuildInfo) -> (r: String)
    ensures
        r@ == version_text(build.version@, static_views(build.features@), build.arch@),
{
    let mut v = to_chars("usbtop-ng ");
    extend_str(&mut v, build.version.as_str());
    extend_str(&mut v, " (features: ");
    if build.features.len() == 0 {
        extend_str(&mut v, "none");
    } else {
        let ghost names = static_views(build.features@);
        let mut parts: Vec<Vec<char>> = Vec::new();
        let mut i: usize = 0;
        assert(char_views(parts@) =~= names.take(0));
        while i < build.features.len()
            invariant
                i <= build.features@.len(),
                names == static_views(build.features@),
                char_views(parts@) == names.take(i as int),
            decreases build.features@.len() - i,
        {
            let ghost before = char_views(parts@);
            let part = to_chars(build.features[i]);
            assert(part@ == names[i as int]);
            parts.push(part);
            assert(char_views(parts@) =~= before.push(names[i as int]));
            assert(names.take(i + 1) =~= names.take(i as int).push(names[i as int]));
            i = i + 1;
        }
        assert(names.take(names.len() as int) =~= names);
        extend(&mut v, &join(&parts, &to_chars(" ")));
    }
    extend_str(&mut v, ") ");
    extend_str(&mut v, build.arch.as_str());
    from_chars(&v)
}

/// A part of a line, left out when it is empty.
pub open spec fn unless_empty(s: Seq<char>) -> Seq<Seq<char>> {
    if s.len() == 0 {
        Seq::empty()
    } else {
        seq![s]
    }
}

/// The line about the host: its kernel, distribution and board, as far as
/// they are known.
pub open spec fn host_text(kernel: Seq<char>, os: Seq<char>, board: Seq<char>) -> Seq<char> {
    join_with(
        (if kernel.len() == 0 {
            Seq::empty()
        } else {
            seq!["Linux "@ + kernel]
        }) + unless_empty(os) + unless_empty(board),
        ", "@,
    )
}

fn add_part(parts: &mut Vec<Vec<char>>, part: Vec<char>)
    ensures
        char_views(final(parts)@) == char_views(old(parts)@).push(part@),
{
    let ghost before = char_views(parts@);
    let ghost view = part@;
    parts.push(part);
    assert(char_views(parts@) =~= before.push(view));
}

/// The line about the host.
pub fn host_line(host: &HostInfo) -> (r: String)
    ensures
        r@ == host_text(host.kernel@, host.os@, host.board@),
{
    let mut parts: Vec<Vec<char>> = Vec::new();
    assert(char_views(parts@) =~= Seq::<Seq<char>>::empty());
    let kernel = to_chars(host.kernel.as_str());
    if kernel.len() > 0 {
        let mut v = to_chars("Linux ");
        extend(&mut v, &kernel);
        add_part(&mut parts, v);
    }
    let os = to_chars(host.os.as_str());
    if os.len() > 0 {
        add_part(&mut parts, os);
    }
    let board = to_chars(host.board.as_str());
    if board.len() > 0 {
        add_part(&mut parts, board);
    }
    assert(char_views(parts@) =~= (if host.kernel@.len() == 0 {
        Seq::empty()
    } else {
        seq!["Linux "@ + host.kernel@]
    }) + unless_empty(host.os@) + unless_empty(host.board@));
    from_chars(&join(&parts, &to_chars(", ")))
}

/// An owner: `root`, or a number.
pub open spec fn owner_text(id: u32) -> Seq<char> {
    if id == 0 {
        "root"@
    } else {
        decimal(id as nat)
    }
}

fn owner(id: u32) -> (r: Vec<char>)
    ensures
        r@ == owner_text(id),
{
    if id == 0 {
        to_chars("root")
    } else {
        to_decimal(id as u64)
    }
}

/// The part about usbmon's nodes: the first one's ownership and mode.
pub open spec fn nodes_text(u: UsbmonInfo) -> Seq<char> {
    if u.nodes@.len() > 0 {
        "/dev/usbmon* "@ + owner_text(u.nodes@[0].owner_uid) + ":"@ + owner_text(u.nodes@[0].group_gid) + " "@
            + u.nodes@[0].mode_octal@
    } else {
        "no /dev/usbmon* nodes"@
    }
}

/// The line about usbmon.
pub open spec fn usbmon_text(u: UsbmonInfo, running_as_root: bool) -> Seq<char> {
    (if u.module_loaded {
        "module loaded"@
    } else {
        "module not loaded"@
    }) + ", "@ + decimal(u.available_buses@.len()) + " buses, "@ + nodes_text(u) + (if u.permission_denied {
        ", permission denied"@
    } else {
        ""@
    }) + (if running_as_root {
        ", running as root"@
    } else {
        ", not running as root"@
    })
}

/// The line about usbmon.
pub fn usbmon_line(u: &UsbmonInfo, running_as_root: bool) -> (r: String)
    ensures
        r@ == usbmon_text(*u, running_as_root),
{
    let mut v = if u.module_loaded {
        to_chars("module loaded")
    } else {
        to_chars("module not loaded")
    };
    extend_str(&mut v, ", ");
    extend(&mut v, &to_decimal(u.available_buses.len() as u64));
    extend_str(&mut v, " buses, ");
    let ghost front = v@;
    if u.nodes.len() > 0 {
        let node = &u.nodes[0];
        let mut n = to_chars("/dev/usbmon* ");
        extend(&mut n, &owner(node.owner_uid));
        extend_str(&mut n, ":");
        extend(&mut n, &owner(node.group_gid));
        extend_str(&mut n, " ");
        extend_str(&mut n, node.mode_octal.as_str());
        extend(&mut v, &n);
    } else {
        extend_str(&mut v, "no /dev/usbmon* nodes");
    }
    if u.permission_denied {
        extend_str(&mut v, ", permission denied");
    } else {
        extend_str(&mut v, "");
    }
    if running_as_root {
        extend_str(&mut v, ", running as root");
    } else {
        extend_str(&mut v, ", not running as root");
    }
    from_chars(&v)
}

/// What would be selected, in words.
pub open spec fn selected_text(would_select: Seq<char>, ring_bytes: Option<usize>) -> Seq<char> {
    if would_select == "mmap"@ {
        "mmap ring ("@ + (match ring_bytes {
            Some(n) => decimal(n as nat / 1_048_576) + " MiB"@,
            None => "size unknown"@,
        }) + ") would be selected"@
    } else if would_select == "binary"@ {
        "read()-based binary interface would be selected"@
    } else if would_select == "text"@ {
        "debugfs text interface would be selected"@
    } else {
        "no usbmon interface would be selected"@
    }
}

/// The line about the source that would be selected.
pub open spec fn backend_text(b: BackendInfo) -> Seq<char> {
    selected_text(b.would_select@, b.ring_bytes) + "; eBPF: BTF "@ + (if b.btf_present {
        "present"@
    } else {
        "absent"@
    }) + ", "@ + (if b.ebpf_built_in {
        "built in"@
    } else {
        "not built in"@
    })
}

/// The line about the source that would be selected.
pub fn backend_line(b: &BackendInfo) -> (r: String)
    ensures
        r@ == backend_text(*b),
{
    let mut v: Vec<char>;
    if str_eq(b.would_select, "mmap") {
        v = to_chars("mmap ring (");
        match b.ring_bytes {
            Some(n) => {
                let mut size = to_decimal((n / 1_048_576) as u64);
                extend_str(&mut size, " MiB");
                extend(&mut v, &size);
            },
            None => {
                extend_str(&mut v, "size unknown");
            },
        }
        extend_str(&mut v, ") would be selected");
    } else if str_eq(b.would_select, "binary") {
        v = to_chars("read()-based binary interface would be selected");
    } else if str_eq(b.would_select, "text") {
        v = to_chars("debugfs text interface would be selected");
    } else {
        v = to_chars("no usbmon interface would be selected");
    }
    extend_str(&mut v, "; eBPF: BTF ");
    extend_str(
        &mut v,
        if b.btf_present {
            "present"
        } else {
            "absent"
        },
    );
    extend_str(&mut v, ", ");
    extend_str(
        &mut v,
        if b.ebpf_built_in {
            "built in"
        } else {
            "not built in"
        },
    );
    from_chars(&v)
}

/// The line about the capture.
pub open spec fn capture_text(state: CaptureState) -> Seq<char> {
    match state {
        CaptureState::Captured { window_ms, sources, events, kernel_dropped } => fixed_text(
            rounded(window_ms as nat, 100),
            10,
            1,
        ) + " s aggregate, "@ + comma_text(events as nat) + " events, kernel drops "@ + (match kernel_dropped {
            Some(n) => decimal(n as nat),
            None => "unknown"@,
        }) + ", sources "@ + join_with(source_tags(sources@), "+"@),
        CaptureState::Skipped(reason) => reason@,
        CaptureState::Failed(reason) => reason@,
    }
}

/// The line about the capture.
pub fn capture_line(state: &CaptureState) -> (r: String)
    ensures
        r@ == capture_text(*state),
{
    match state {
        CaptureState::Skipped(reason) => reason.clone(),
        CaptureState::Failed(reason) => reason.clone(),
        CaptureState::Captured { window_ms, sources, events, kernel_dropped } => {
            let mut v = to_fixed(round_ratio(*window_ms as u128, 100), 10, 1);
            extend_str(&mut v, " s aggregate, ");
            extend(&mut v, &grouped(*events));
            extend_str(&mut v, " events, kernel drops ");
            match kernel_dropped {
                Some(n) => {
                    extend(&mut v, &to_decimal(*n));
                },
                None => {
                    extend_str(&mut v, "unknown");
                },
            }
            extend_str(&mut v, ", sources ");
            let ghost all = source_tags(sources@);
            let mut parts: Vec<Vec<char>> = Vec::new();
            let mut i: usize = 0;
            assert(char_views(parts@) =~= all.take(0));
            while i < sources.len()
                invariant
                    i <= sources@.len(),
                    all == source_tags(sources@),
                    char_views(parts@) == all.take(i as int),
                decreases sources@.len() - i,
            {
                add_part(&mut parts, to_chars(sources[i].tag()));
                assert(all.take(i + 1) =~= all.take(i as int).push(all[i as int]));
                i = i + 1;
            }
            assert(all.take(all.len() as int) =~= all);
            extend(&mut v, &join(&parts, &to_chars("+")));
            from_chars(&v)
        },
    }
}

/// How many devices are not root hubs.
pub open spec fn plugged(devices: Seq<UsbDeviceInfo>) -> nat
    decreases devices.len(),
{
    if devices.len() == 0 {
        0
    } else {
        plugged(devices.drop_last()) + (if starts(devices.last().port_chain@, "usb"@) {
            0nat
        } else {
            1nat
        })
    }
}

/// How many buses several controllers have.
pub open spec fn bus_count(controllers: Seq<ControllerInfo>) -> nat
    decreases controllers.len(),
{
    if controllers.len() == 0 {
        0
    } else {
        bus_count(controllers.drop_last()) + controllers.last().buses@.len()
    }
}

/// The speeds that devices state, in their order.
pub open spec fn speeds_stated(devices: Seq<UsbDeviceInfo>) -> Seq<Seq<char>>
    decreases devices.len(),
{
    if devices.len() == 0 {
        Seq::empty()
    } else {
        match devices.last().speed {
            Some(s) => speeds_stated(devices.drop_last()).push(s@),
            None => speeds_stated(devices.drop_last()),
        }
    }
}

/// Speeds stand in numeric order; one that states no number counts as zero.
pub open spec fn by_rate() -> spec_fn(Seq<char>, Seq<char>) -> bool {
    |a: Seq<char>, b: Seq<char>| size_le(size_of(a), size_of(b))
}

/// A list without the items that equal the one before them.
pub open spec fn without_repeats(v: Seq<Seq<char>>) -> Seq<Seq<char>>
    decreases v.len(),
{
    if v.len() == 0 {
        v
    } else if v.len() > 1 && v[v.len() - 2] == v.last() {
        without_repeats(v.drop_last())
    } else {
        without_repeats(v.drop_last()).push(v.last())
    }
}

/// The line about the devices.
pub open spec fn devices_text(inv: UsbInventory) -> Seq<char> {
    let speeds = without_repeats(sorted_by(speeds_stated(inv.devices@), by_rate()));
    decimal(plugged(inv.devices@)) + " across "@ + decimal(bus_count(inv.controllers@)) + " buses"@ + (if speeds.len()
        == 0 {
        ""@
    } else {
        " ("@ + join_with(speeds, "/"@) + " Mbps)"@
    })
}

/// A speed, ranked by the number that it states.
struct Stated {
    text: Vec<char>,
}

impl Ranked for Stated {
    closed spec fn le(self, other: Self) -> bool {
        size_le(size_of(self.text@), size_of(other.text@))
    }

    fn is_le(&self, other: &Self) -> (r: bool) {
        at_most(&measure(&self.text), &measure(&other.text))
    }

    proof fn le_total(a: Self, b: Self) {
        lemma_size_le(size_of(a.text@), size_of(b.text@), size_of(a.text@));
    }

    proof fn le_transitive(a: Self, b: Self, c: Self) {
        lemma_size_le(size_of(a.text@), size_of(b.text@), size_of(c.text@));
    }
}

spec fn stated_views(v: Seq<Stated>) -> Seq<Seq<char>> {
    v.map_values(|s: Stated| s.text@)
}

fn list_speeds(devices: &Vec<UsbDeviceInfo>) -> (r: Vec<Vec<char>>)
    ensures
        char_views(r@) == without_repeats(sorted_by(speeds_stated(devices@), by_rate())),
{
    let mut all: Vec<Stated> = Vec::new();
    let mut i: usize = 0;
    assert(stated_views(all@) =~= Seq::<Seq<char>>::empty());
    while i < devices.len()
        invariant
            i <= devices@.len(),
            stated_views(all@) == speeds_stated(devices@.take(i as int)),
        decreases devices@.len() - i,
    {
        assert(devices@.take(i + 1).drop_last() =~= devices@.take(i as int));
        if let Some(s) = &devices[i].speed {
            let ghost before = stated_views(all@);
            all.push(Stated { text: to_chars(s.as_str()) });
            assert(stated_views(all@) =~= before.push(s@));
        }
        i = i + 1;
    }
    assert(devices@.take(devices@.len() as int) =~= devices@);
    proof {
        lemma_sorted_mapped(all@, rank::<Stated>(), |s: Stated| s.text@, by_rate());
    }
    let ordered = sort(all);
    let ghost views = stated_views(ordered@);
    let mut out: Vec<Vec<char>> = Vec::new();
    let mut k: usize = 0;
    assert(char_views(out@) =~= Seq::<Seq<char>>::empty());
    assert(views.take(0) =~= Seq::<Seq<char>>::empty());
    while k < ordered.len()
        invariant
            k <= ordered@.len(),
            views == stated_views(ordered@),
            char_views(out@) == without_repeats(views.take(k as int)),
        decreases ordered@.len() - k,
    {
        let ghost now = views.take(k + 1);
        assert(now.drop_last() =~= views.take(k as int));
        assert(views[k as int] == ordered@[k as int].text@);
        let repeated = if k > 0 {
            assert(now[now.len() - 2] == ordered@[k - 1].text@);
            crate::text::chars_eq(&ordered[k - 1].text, &ordered[k].text)
        } else {
            false
        };
        if !repeated {
            add_part(&mut out, ordered[k].text.clone());
        }
        k = k + 1;
    }
    assert(views.take(views.len() as int) =~= views);
    out
}

/// The line about the devices: how many, on how many buses, at which speeds.
pub fn devices_line(inv: &UsbInventory) -> (r: String)
    ensures
        r@ == devices_text(*inv),
{
    let prefix = to_chars("usb");
    let mut devices: usize = 0;
    let mut i: usize = 0;
    while i < inv.devices.len()
        invariant
            i <= inv.devices.len(),
            prefix@ == "usb"@,
            devices <= i,
            devices == plugged(inv.devices@.take(i as int)),
        decreases inv.devices@.len() - i,
    {
        assert(inv.devices@.take(i + 1).drop_last() =~= inv.devices@.take(i as int));
        if !starts_with(&to_chars(inv.devices[i].port_chain.as_str()), &prefix) {
            devices = devices + 1;
        }
        i = i + 1;
    }
    assert(inv.devices@.take(inv.devices@.len() as int) =~= inv.devices@);
    let mut buses: u128 = 0;
    let mut k: usize = 0;
    assert(inv.controllers@.take(0) =~= Seq::<ControllerInfo>::empty());
    while k < inv.controllers.len()
        invariant
            k <= inv.controllers.len(),
            buses <= k * 0xffff_ffff_ffff_ffff,
            buses == bus_count(inv.controllers@.take(k as int)),
        decreases inv.controllers@.len() - k,
    {
        assert(inv.controllers@.take(k + 1).drop_last() =~= inv.controllers@.take(k as int));
        buses = buses + inv.controllers[k].buses.len() as u128;
        k = k + 1;
    }
    assert(inv.controllers@.take(inv.controllers@.len() as int) =~= inv.controllers@);
    let speeds = list_speeds(&inv.devices);
    let mut v = to_decimal(devices as u64);
    extend_str(&mut v, " across ");
    extend(&mut v, &to_wide_decimal(buses));
    extend_str(&mut v, " buses");
    if speeds.len() == 0 {
        extend_str(&mut v, "");
    } else {
        let mut list = to_chars(" (");
        extend(&mut list, &join(&speeds, &to_chars("/")));
        extend_str(&mut list, " Mbps)");
        extend(&mut v, &list);
    }
    from_chars(&v)
}

/// What a rule rewrote, in the singular or the plural.
pub open spec fn rule_label(rule: Seq<char>, one: bool) -> Seq<char> {
    if rule == "home_path"@ {
        if one {
            "home path"@
        } else {
            "home paths"@
        }
    } else if rule == "user_name"@ {
        if one {
            "user name"@
        } else {
            "user names"@
        }
    } else if rule == "mac_address"@ {
        if one {
            "MAC address"@
        } else {
            "MAC addresses"@
        }
    } else if rule == "fs_uuid"@ {
        if one {
            "filesystem UUID"@
        } else {
            "filesystem UUIDs"@
        }
    } else if rule == "build_stamp"@ {
        if one {
            "build stamp"@
        } else {
            "build stamps"@
        }
    } else {
        rule
    }
}

/// How often each rule fired, in words.
pub open spec fn rule_parts(redaction: Seq<(Seq<char>, usize)>) -> Seq<Seq<char>> {
    redaction.map_values(|e: (Seq<char>, usize)| decimal(e.1 as nat) + " "@ + rule_label(e.0, e.1 == 1))
}

/// The line about what was rewritten.
pub open spec fn redacted_text(redaction: Seq<(Seq<char>, usize)>) -> Seq<char> {
    (if redaction.len() == 0 {
        "nothing rewritten"@
    } else {
        join_with(rule_parts(redaction), ", "@)
    }) + "; host identity never collected; device serials included"@
}

fn label(rule: &str, one: bool) -> (r: Vec<char>)
    ensures
        r@ == rule_label(rule@, one),
{
    let text = if str_eq(rule, "home_path") {
        if one {
            "home path"
        } else {
            "home paths"
        }
    } else if str_eq(rule, "user_name") {
        if one {
            "user name"
        } else {
            "user names"
        }
    } else if str_eq(rule, "mac_address") {
        if one {
            "MAC address"
        } else {
            "MAC addresses"
        }
    } else if str_eq(rule, "fs_uuid") {
        if one {
            "filesystem UUID"
        } else {
            "filesystem UUIDs"
        }
    } else if str_eq(rule, "build_stamp") {
        if one {
            "build stamp"
        } else {
            "build stamps"
        }
    } else {
        rule
    };
    to_chars(text)
}

/// The line about what was rewritten.
pub fn redacted_line(redaction: &Vec<(String, usize)>) -> (r: String)
    ensures
        r@ == redacted_text(rule_counts(redaction@)),
{
    let mut v: Vec<char>;
    if redaction.len() == 0 {
        v = to_chars("nothing rewritten");
    } else {
        let ghost all = rule_parts(rule_counts(redaction@));
        let mut parts: Vec<Vec<char>> = Vec::new();
        let mut i: usize = 0;
        assert(char_views(parts@) =~= all.take(0));
        while i < redaction.len()
            invariant
                i <= redaction@.len(),
                all == rule_parts(rule_counts(redaction@)),
                char_views(parts@) == all.take(i as int),
            decreases redaction@.len() - i,
        {
            let n = redaction[i].1;
            let mut part = to_decimal(n as u64);
            extend_str(&mut part, " ");
            extend(&mut part, &label(redaction[i].0.as_str(), n == 1));
            assert(part@ == all[i as int]);
            add_part(&mut parts, part);
            assert(all.take(i + 1) =~= all.take(i as int).push(all[i as int]));
            i = i + 1;
        }
        assert(all.take(all.len() as int) =~= all);
        v = join(&parts, &to_chars(", "));
    }
    extend_str(&mut v, "; host identity never collected; device serials included");
    from_chars(&v)
}

/// A text as it is shown to others: with the home rule applied.
pub open spec fn shown_for(text: Seq<char>, home: Option<&str>) -> Seq<char> {
    let h = match home {
        Some(h) => Some(h@),
        None => None,
    };
    text_masked(text, kept_home(h), kept_name(h)).text
}

/// How an archive is shown from the directory `cwd`.
pub open spec fn archive_shown(archive: Seq<char>, cwd: Option<&str>, home: Option<&str>) -> Seq<char> {
    match cwd {
        Some(c) => match below(archive, c@) {
            Some(rest) => "./"@ + rest,
            None => shown_for(archive, home),
        },
        None => shown_for(archive, home),
    }
}

/// An archive in the home is shown without it: from elsewhere a `~` stands in
/// its place.
pub proof fn law_an_archive_in_the_home_is_shown_below_a_tilde(home: &str, rest: Seq<char>, cwd: Option<&str>)
    requires
        kept_home(Some(home@)) == Some(home@),
        rest.len() == 0 || !is_path_char(rest[0]),
        cwd matches Some(c) ==> below(home@ + rest, c@) is None,
    ensures
        archive_shown(home@ + rest, cwd, Some(home)) == seq!['~'] + home_masked(
            Some(home@.last()),
            rest,
            home@,
            kept_name(Some(home@)),
        ).text,
{
    law_a_path_below_the_home_is_shown_below_a_tilde(home@, rest, kept_name(Some(home@)));
}

/// How the summary names the archive: relative to the current directory when
/// it lives under it (`./usbtop-ng-support-….tar.gz`), else with the home rule
/// applied (`~/bugs/x.tar.gz`), so the pasted summary does not carry the user's
/// home path. Started from a directory above the home, the relative name still
/// leads through it.
pub fn display_archive(archive: &str, cwd: Option<&str>, home: Option<&str>) -> (r: String)
    ensures
        r@ == archive_shown(archive@, cwd, home),
{
    if let Some(c) = cwd {
        if let Some(rest) = strip_prefix(archive, c) {
            let mut v = to_chars("./");
            extend_str(&mut v, rest.as_str());
            return from_chars(&v);
        }
    }
    Redactor::new(home).text(archive)
}

/// The line about the bundle.
pub open spec fn bundle_text(s: Summary) -> Seq<char> {
    let count = decimal(s.file_count as nat);
    match s.archive {
        ArchiveState::Pending => s.dir_name@ + "/ ("@ + count + " files)"@,
        ArchiveState::Written(shown, bytes) => shown@ + " ("@ + size_text(bytes as nat) + ", "@ + count + " files)"@,
        ArchiveState::Missing(reason) => s.dir_name@ + "/ ("@ + count + " files; not archived: "@ + reason@
            + ". Archive it by hand from its parent directory: tar -czf "@ + s.dir_name@ + ".tar.gz "@ + s.dir_name@
            + ")"@,
    }
}

fn bundle_line(s: &Summary) -> (r: Vec<char>)
    ensures
        r@ == bundle_text(*s),
{
    let mut v: Vec<char>;
    let count = to_decimal(s.file_count as u64);
    match &s.archive {
        ArchiveState::Pending => {
            v = to_chars(s.dir_name.as_str());
            extend_str(&mut v, "/ (");
            extend(&mut v, &count);
            extend_str(&mut v, " files)");
        },
        ArchiveState::Written(shown, bytes) => {
            v = to_chars(shown.as_str());
            extend_str(&mut v, " (");
            extend_str(&mut v, format_size(*bytes).as_str());
            extend_str(&mut v, ", ");
            extend(&mut v, &count);
            extend_str(&mut v, " files)");
        },
        ArchiveState::Missing(reason) => {
            v = to_chars(s.dir_name.as_str());
            extend_str(&mut v, "/ (");
            extend(&mut v, &count);
            extend_str(&mut v, " files; not archived: ");
            extend_str(&mut v, reason.as_str());
            extend_str(&mut v, ". Archive it by hand from its parent directory: tar -czf ");
            extend_str(&mut v, s.dir_name.as_str());
            extend_str(&mut v, ".tar.gz ");
            extend_str(&mut v, s.dir_name.as_str());
            extend_str(&mut v, ")");
        },
    }
    v
}

/// One labelled line.
pub open spec fn labelled(label: Seq<char>, value: Seq<char>) -> Seq<char> {
    label + value + "\n"@
}

/// The lines about what is missing; the label stands before the first.
pub open spec fn note_lines(v: Seq<NoteFacts>) -> Seq<char>
    decreases v.len(),
{
    if v.len() == 0 {
        Seq::empty()
    } else {
        note_lines(v.drop_last()) + (labelled(
            if v.len() == 1 {
                "  notes:    "@
            } else {
                "            "@
            },
            v.last().item + ": "@ + v.last().reason,
        ))
    }
}

/// The whole summary.
pub open spec fn summary_text(s: Summary) -> Seq<char> {
    "usbtop-ng support bundle\n"@ + labelled("  bundle:   "@, bundle_text(s)) + labelled("  version:  "@, s.version@)
        + labelled("  host:     "@, s.host@) + labelled("  usbmon:   "@, s.usbmon@) + labelled(
        "  backend:  "@,
        s.backend@,
    ) + labelled("  capture:  "@, s.capture@) + labelled("  devices:  "@, s.devices@) + (if s.notes@.len() == 0 {
        "  notes:    none\n"@
    } else {
        note_lines(notes(s.notes@))
    }) + labelled("  redacted: "@, s.redacted@)
}

fn push_labelled(out: &mut Vec<char>, label: &str, value: &Vec<char>)
    ensures
        final(out)@ == old(out)@ + labelled(label@, value@),
{
    let mut line = to_chars(label);
    extend(&mut line, value);
    extend_str(&mut line, "\n");
    extend(out, &line);
}

fn push_notes(out: &mut Vec<char>, said: &Vec<Note>)
    ensures
        final(out)@ == old(out)@ + note_lines(notes(said@)),
{
    let ghost start = out@;
    let ghost all = notes(said@);
    let mut i: usize = 0;
    assert(all.take(0) =~= Seq::<NoteFacts>::empty());
    assert(start + note_lines(all.take(0)) =~= start);
    while i < said.len()
        invariant
            i <= said@.len(),
            all == notes(said@),
            out@ == start + note_lines(all.take(i as int)),
        decreases said@.len() - i,
    {
        assert(all.take(i + 1).drop_last() =~= all.take(i as int));
        assert(all[i as int] == said@[i as int]@);
        let mut value = to_chars(said[i].item.as_str());
        extend_str(&mut value, ": ");
        extend_str(&mut value, said[i].reason.as_str());
        let label = if i == 0 {
            "  notes:    "
        } else {
            "            "
        };
        push_labelled(out, label, &value);
        assert(out@ =~= start + note_lines(all.take(i + 1)));
        i = i + 1;
    }
    assert(all.take(all.len() as int) =~= all);
}

/// The summary: a title and one labelled line per subject.
pub fn render_summary(s: &Summary) -> (r: String)
    ensures
        r@ == summary_text(*s),
{
    let mut out = to_chars("usbtop-ng support bundle\n");
    push_labelled(&mut out, "  bundle:   ", &bundle_line(s));
    push_labelled(&mut out, "  version:  ", &to_chars(s.version.as_str()));
    push_labelled(&mut out, "  host:     ", &to_chars(s.host.as_str()));
    push_labelled(&mut out, "  usbmon:   ", &to_chars(s.usbmon.as_str()));
    push_labelled(&mut out, "  backend:  ", &to_chars(s.backend.as_str()));
    push_labelled(&mut out, "  capture:  ", &to_chars(s.capture.as_str()));
    push_labelled(&mut out, "  devices:  ", &to_chars(s.devices.as_str()));
    if s.notes.len() == 0 {
        extend_str(&mut out, "  notes:    none\n");
    } else {
        push_notes(&mut out, &s.notes);
    }
    push_labelled(&mut out, "  redacted: ", &to_chars(s.redacted.as_str()));
    from_chars(&out)
}

/// Printed after the summary. Sentence case, one action per line.
pub const GUIDANCE: &'static str = "\nTo report a bug:\n  1. Review the bundle before attaching it: `tar tzf <archive>` lists every file.\n     It carries your devices' full details, including their serial numbers, and\n     nothing about the host itself; you decide what to attach.\n  2. Open https://github.com/wifi-blackout/usbtop-ng/issues/new?template=bug_report.yml\n  3. Paste the summary above into \"Support summary\" and attach the .tar.gz.\n  4. Describe what you expected, what happened, and the exact command you ran.\n     For a display problem, name the terminal and say whether it was over SSH.\n";

} // verus!
