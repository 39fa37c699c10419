//! What a support bundle promises: what may identify the host is rewritten in
//! everything it holds, what must not be read is not, and what it tells is
//! what was there.

use vstd::prelude::*;

use crate::device::text_of;
use crate::fixture_replay::FixtureSource;
use crate::number::{
    all_digits, decimal, law_decimal_is_worth_its_number, law_fixed_text_shows_its_number,
    law_rounding_is_to_the_nearest, lemma_powers_of_ten, nearest, place_value, rounded, shows,
};
use crate::path::joined;
use crate::sysfs::{Content, Node};
use crate::text::{join_with, lines_of, occurs, string_views, words_of};
use crate::usbmon::UsbmonStatus;

use super::attrs::{dir_walked, list_walked, Walk};
use super::bundle::{entries_below, plain_entries, tree_entries, FileFacts, SizedKind, SizedNode};
use super::collect::{
    after_all, all_masked, host_facts, keyword_lines, opt_view, or_empty, pretty_name, starting_count, total_memory,
    BuildFacts, HostRoots,
};
use super::files::value_at;
use super::inventory::UsbDeviceInfo;
use super::redact::{law_no_mac_stands_alone_once_masked, lone_mac, text_masked, tokens_masked, Redactor};
use super::summary::{plugged, size_text, CaptureState};
use super::support::{
    archive_name, before_config, blob_part, blob_parts, bundle_parts, gathers, is_archive, note_masked, place_of,
    replayed_source, skip_reason, text_part, Environment, Gathered, PartFacts, Reads, SupportOpts,
};
use super::usbmon::{monitor_number, monitors, tells_backend, BackendInfo, DevNode, NodeProbe};

verus! {

/// Whether a redactor looks for the same home and login name as another.
pub open spec fn same_rules(a: Redactor, b: Redactor) -> bool {
    a.home == b.home && a.user_name == b.user_name
}

/// A redactor rewrites by its home and login name alone, and counts what it
/// rewrote as far as a number goes.
pub proof fn law_a_redactor_rewrites_by_its_home_and_name(redactor: Redactor, s: Seq<char>)
    ensures
        ({
            let m = text_masked(s, text_of(redactor.home), text_of(redactor.user_name));
            let after = redactor.after(s);
            &&& redactor.masks(s) == m
            &&& same_rules(after, redactor)
            &&& after.mac_masks == redactor.mac_masks && after.fs_uuids == redactor.fs_uuids
            &&& redactor.home_paths + m.homes <= usize::MAX ==> after.home_paths == redactor.home_paths + m.homes
            &&& redactor.home_paths + m.homes > usize::MAX ==> after.home_paths == usize::MAX
            &&& redactor.user_names + m.users <= usize::MAX ==> after.user_names == redactor.user_names + m.users
            &&& redactor.user_names + m.users > usize::MAX ==> after.user_names == usize::MAX
        }),
{
}

proof fn lemma_after_all_keeps_the_rules(redactor: Redactor, texts: Seq<Seq<char>>)
    ensures
        same_rules(after_all(redactor, texts), redactor),
    decreases texts.len(),
{
    if texts.len() > 0 {
        lemma_after_all_keeps_the_rules(redactor, texts.drop_last());
    }
}

proof fn lemma_before_config_keeps_the_rules(
    redactor: Redactor,
    opts: SupportOpts,
    reads: Reads,
    env: Environment,
)
    ensures
        same_rules(before_config(redactor, opts, reads, env), redactor),
{
    lemma_after_all_keeps_the_rules(redactor, string_views(opts.command@));
}

/// What is gathered for a bundle is rewritten by the redactor's rules: the
/// command as it was run, the configuration directory and the bodies of the
/// configuration files by home and login name, the kernel command line by its
/// UUIDs; and no MAC address stands alone in the kernel log.
pub proof fn law_what_is_gathered_is_rewritten(
    g: Gathered,
    opts: SupportOpts,
    reads: Reads,
    env: Environment,
    build: BuildFacts,
    redactor: Redactor,
    i: int,
)
    requires
        gathers(g, opts, reads, env, build, redactor),
    ensures
        ({
            let home = text_of(redactor.home);
            let name = text_of(redactor.user_name);
            &&& g.build.command@.len() == opts.command@.len()
            &&& 0 <= i < opts.command@.len() ==> g.build.command@[i]@ == text_masked(opts.command@[i]@, home, name).text
            &&& opt_view(reads.config_dir) matches Some(d) ==> text_of(g.config.dir) == Some(
                text_masked(d, home, name).text,
            )
            &&& opt_view(reads.config_dir) is Some ==> {
                &&& reads.config.preferences matches Ok(t) ==> text_of(g.config.preferences) == Some(
                    text_masked(t@, home, name).text,
                )
                &&& reads.config.preferences is Err ==> g.config.preferences is None
                &&& reads.config.internal_devices matches Ok(t) ==> text_of(g.config.internal_devices) == Some(
                    text_masked(t@, home, name).text,
                )
                &&& reads.config.internal_devices is Err ==> g.config.internal_devices is None
            }
            &&& value_at(reads.host.proc_root@, "cmdline"@) matches Some(t) ==> g.host@.cmdline == join_with(
                tokens_masked(words_of(t)),
                " "@,
            )
            &&& (g.dmesg is Some <==> env.dmesg is Ok)
            &&& env.dmesg matches Ok(t) ==> {
                &&& g.dmesg->0@.len() == t@.len()
                &&& 0 <= i < t@.len() ==> !lone_mac(
                    if i == 0 {
                        None
                    } else {
                        Some(g.dmesg->0@[i - 1])
                    },
                    g.dmesg->0@.skip(i),
                )
            }
        }),
{
    lemma_before_config_keeps_the_rules(redactor, opts, reads, env);
    let masked = all_masked(redactor, string_views(opts.command@));
    assert(string_views(g.build.command@) == masked);
    assert(string_views(g.build.command@).len() == g.build.command@.len());
    if 0 <= i < opts.command@.len() {
        assert(string_views(g.build.command@)[i] == g.build.command@[i]@);
        assert(masked[i] == redactor.masks(opts.command@[i]@).text);
    }
    if let Ok(t) = env.dmesg {
        super::redact::law_masking_macs_keeps_the_length(None, t@);
        if 0 <= i < t@.len() {
            law_no_mac_stands_alone_once_masked(None, t@, i);
        }
    }
}

/// The files of a bundle that hold text hold what was gathered, rewritten as
/// it was gathered: the kernel log and the two configuration files, each only
/// when it is there.
pub proof fn law_a_bundle_holds_what_was_gathered(g: Gathered, rel: Seq<char>, text: Seq<char>)
    requires
        bundle_parts(g).contains(PartFacts::Text(rel, text)),
    ensures
        (rel == "dmesg-usb.txt"@ && text_of(g.dmesg) == Some(text)) || (rel == "config/preferences.toml"@ && text_of(
            g.config.preferences,
        ) == Some(text)) || (rel == "config/internal-devices.toml"@ && text_of(g.config.internal_devices) == Some(text)),
{
    let a = seq![
        PartFacts::Document("build.toml"@),
        PartFacts::Document("host.toml"@),
        PartFacts::Document("usbmon.toml"@),
    ];
    let b = text_part("dmesg-usb.txt"@, text_of(g.dmesg));
    let c = seq![PartFacts::Document("inventory/usb.toml"@)];
    let d = blob_parts(super::attrs::blob_facts(g.blobs@));
    let e = seq![
        PartFacts::Document("inventory/thunderbolt.toml"@),
        PartFacts::Document("inventory/typec.toml"@),
        PartFacts::Document("config/config.toml"@),
    ];
    let f = text_part("config/preferences.toml"@, text_of(g.config.preferences));
    let h = text_part("config/internal-devices.toml"@, text_of(g.config.internal_devices));
    let k = seq![PartFacts::Document("terminal.toml"@)];
    let all = bundle_parts(g);
    assert(all =~= a + b + c + d + e + f + h + k);
    lemma_blobs_are_bytes(super::attrs::blob_facts(g.blobs@));
    let wanted = PartFacts::Text(rel, text);
    let i = choose|i: int| 0 <= i < all.len() && all[i] == wanted;
    let n1 = a.len() as int;
    let n2 = n1 + b.len();
    let n3 = n2 + c.len();
    let n4 = n3 + d.len();
    let n5 = n4 + e.len();
    let n6 = n5 + f.len();
    let n7 = n6 + h.len();
    if i < n1 {
        assert(all[i] == a[i]);
    } else if i < n2 {
        assert(all[i] == b[i - n1]);
    } else if i < n3 {
        assert(all[i] == c[i - n2]);
    } else if i < n4 {
        assert(all[i] == d[i - n3]);
    } else if i < n5 {
        assert(all[i] == e[i - n4]);
    } else if i < n6 {
        assert(all[i] == f[i - n5]);
    } else if i < n7 {
        assert(all[i] == h[i - n6]);
    } else {
        assert(all[i] == k[i - n7]);
    }
}

proof fn lemma_blobs_are_bytes(blobs: Seq<super::attrs::BlobFacts>)
    ensures
        forall|i: int| 0 <= i < blob_parts(blobs).len() ==> (#[trigger] blob_parts(blobs)[i]) is Bytes,
    decreases blobs.len(),
{
    if blobs.len() > 0 {
        lemma_blobs_are_bytes(blobs.drop_last());
        let front = blob_parts(blobs.drop_last());
        let last = blob_part(blobs.last());
        assert forall|i: int| 0 <= i < blob_parts(blobs).len() implies (#[trigger] blob_parts(blobs)[i]) is Bytes by {
            if i < front.len() {
                assert(blob_parts(blobs)[i] == front[i]);
            } else {
                assert(blob_parts(blobs)[i] == last[i - front.len()]);
            }
        }
    }
}

/// A note is rewritten by the same rules, its item and its reason.
pub proof fn law_a_note_is_rewritten(redactor: Redactor, n: super::NoteFacts)
    ensures
        note_masked(redactor, n).item == text_masked(n.item, text_of(redactor.home), text_of(redactor.user_name)).text,
        note_masked(redactor, n).reason == text_masked(
            n.reason,
            text_of(redactor.home),
            text_of(redactor.user_name),
        ).text,
{
}

/// A firmware image, a stored secret and the directories that are left out
/// add nothing to a dump, whatever they hold.
pub proof fn law_a_secret_is_never_read(
    before: Walk,
    nodes: Seq<Node>,
    node: Node,
    dir: Seq<char>,
    base: Seq<char>,
    left: nat,
)
    requires
        node.link is None,
        ({
            ||| (node.name@ == "key"@ || node.name@ == "nvmem"@) && !(node.content is Directory)
            ||| (node.name@ == "power"@ || node.name@ == "subsystem"@ || node.name@ == "firmware_node"@)
                && node.content is Directory
        }),
    ensures
        list_walked(before, nodes.push(node), dir, base, left) == list_walked(before, nodes, dir, base, left),
        dir_walked(before, nodes, dir, base, 0) == before,
{
    assert(nodes.push(node).drop_last() =~= nodes);
    assert(nodes.push(node).last() == node);
}

/// A file that can be read, is UTF-8 and is not left out adds its own text,
/// trimmed, under its own path; a symbolic link adds the name it points to.
pub proof fn law_an_attribute_is_recorded_under_its_path(
    before: Walk,
    nodes: Seq<Node>,
    node: Node,
    text: Seq<char>,
    dir: Seq<char>,
    base: Seq<char>,
    left: nat,
)
    requires
        left > 0,
        node.link is None,
        node.name@ != "key"@ && node.name@ != "nvmem"@,
        node.content matches Content::Text(t) && t@ == text,
        vstd::utf8::encode_utf8(text).len() <= 4096,
    ensures
        ({
            let path = if dir.len() == 0 {
                node.name@
            } else {
                joined(dir, node.name@)
            };
            list_walked(before, nodes.push(node), dir, base, left).attrs == list_walked(
                before,
                nodes,
                dir,
                base,
                left,
            ).attrs.insert(path, crate::text::trimmed(text))
        }),
{
    assert(nodes.push(node).drop_last() =~= nodes);
    assert(nodes.push(node).last() == node);
    vstd::utf8::encode_utf8_decode_utf8(text);
    vstd::utf8::encode_utf8_valid_utf8(text);
}

/// The source that would be picked follows from what the probe found on a
/// listed bus: the ring when it was mapped, else the binary node when it was
/// opened, else the text file when it exists; with no bus, or nothing usable,
/// none. The aggregate bus is probed when it is listed.
pub proof fn law_the_source_picked_is_what_the_probe_found(
    r: BackendInfo,
    buses: Seq<u8>,
    dev_root: Seq<char>,
    debugfs_root: Seq<char>,
    probe: NodeProbe,
    ebpf_built_in: bool,
    btf_present: bool,
)
    requires
        tells_backend(r, buses, dev_root, debugfs_root, probe, ebpf_built_in, btf_present),
    ensures
        r.probed_bus is None <==> buses.len() == 0,
        r.probed_bus is Some ==> buses.contains(r.probed_bus->0),
        buses.contains(0) ==> r.probed_bus == Some(0u8),
        buses.len() > 0 && !buses.contains(0) ==> r.probed_bus == Some(buses[0]),
        r.would_select@ == (if buses.len() == 0 {
            "none"@
        } else if probe.mapped {
            "mmap"@
        } else if probe.opened {
            "binary"@
        } else if probe.text_exists {
            "text"@
        } else {
            "none"@
        }),
        r.ring_bytes is Some ==> buses.len() > 0 && probe.mapped && r.ring_bytes == probe.ring_bytes,
        buses.len() > 0 && probe.mapped ==> r.ring_bytes == probe.ring_bytes,
        r.ebpf_built_in == ebpf_built_in,
        r.btf_present == btf_present,
{
}

proof fn lemma_monitors(dev: Seq<DevNode>)
    ensures
        monitors(dev) == dev.filter(|n: DevNode| monitor_number(n.name@) is Some),
    decreases dev.len(),
{
    reveal(Seq::filter);
    if dev.len() > 0 {
        lemma_monitors(dev.drop_last());
    }
}

/// usbmon's nodes are those called `usbmon` and a number, all of them and in
/// listing order.
pub proof fn law_monitors_are_named_usbmon(dev: Seq<DevNode>, number: nat)
    requires
        number <= 255,
    ensures
        monitors(dev) == dev.filter(|n: DevNode| monitor_number(n.name@) is Some),
        monitor_number("usbmon"@ + decimal(number)) == Some(number),
{
    lemma_monitors(dev);
    reveal_strlit("usbmon");
    let name = "usbmon"@ + decimal(number);
    crate::number::lemma_decimal_round_trip(number);
    assert(name.take(6) =~= "usbmon"@);
    assert(name.skip(6) =~= decimal(number));
}

/// A live capture runs exactly when it is not declined, the user is root and
/// usbmon is available.
pub proof fn law_a_capture_runs_for_root_with_usbmon(
    no_capture: bool,
    effective_uid: u32,
    usbmon: Result<UsbmonStatus, String>,
)
    ensures
        skip_reason(no_capture, effective_uid, usbmon) is None <==> !no_capture && effective_uid == 0 && usbmon is Ok && (
        usbmon->Ok_0).usbmon_available,
        no_capture ==> skip_reason(no_capture, effective_uid, usbmon) == Some("skipped: --no-capture"@),
{
}

/// A replay uses the binary trace when there is one, else the first that was
/// captured, and none without a capture.
pub proof fn law_the_binary_trace_is_replayed_first(state: CaptureState)
    ensures
        state matches CaptureState::Captured { sources, .. } ==> {
            &&& replayed_source(state) is None <==> sources@.len() == 0
            &&& replayed_source(state) matches Some(s) ==> sources@.contains(s)
            &&& sources@.contains(FixtureSource::Binary) ==> replayed_source(state) == Some(FixtureSource::Binary)
        },
        !(state is Captured) ==> replayed_source(state) is None,
{
}

/// Whether a line mentions USB or what belongs to it, in lower case.
pub open spec fn mentions_usb(line: Seq<char>) -> bool {
    let low = crate::filter::lowercased(line);
    occurs(low, "usb"@) || occurs(low, "xhci"@) || occurs(low, "ehci"@) || occurs(low, "ohci"@) || occurs(low, "dwc"@)
        || occurs(low, "thunderbolt"@) || occurs(low, "hub"@) || occurs(low, "usbmon"@)
}

/// Lines, each with a newline.
pub open spec fn with_newlines(lines: Seq<Seq<char>>) -> Seq<char>
    decreases lines.len(),
{
    if lines.len() == 0 {
        Seq::empty()
    } else {
        with_newlines(lines.drop_last()) + lines.last().push('\n')
    }
}

/// Of the kernel log exactly the lines that mention USB are kept, whole and in
/// their order.
pub proof fn law_the_lines_about_usb_are_kept(lines: Seq<Seq<char>>)
    ensures
        keyword_lines(lines) == with_newlines(lines.filter(|l: Seq<char>| mentions_usb(l))),
    decreases lines.len(),
{
    reveal(Seq::filter);
    if lines.len() > 0 {
        law_the_lines_about_usb_are_kept(lines.drop_last());
        let kept = lines.drop_last().filter(|l: Seq<char>| mentions_usb(l));
        if mentions_usb(lines.last()) {
            assert(kept.push(lines.last()).drop_last() =~= kept);
        }
    }
}

/// The processors of a host are the lines that start with their name.
pub proof fn law_lines_are_counted_by_how_they_start(lines: Seq<Seq<char>>, p: Seq<char>)
    ensures
        starting_count(lines, p) == lines.filter(|l: Seq<char>| crate::text::starts(l, p)).len(),
    decreases lines.len(),
{
    reveal(Seq::filter);
    if lines.len() > 0 {
        law_lines_are_counted_by_how_they_start(lines.drop_last(), p);
    }
}

/// Whether a tree holds a file or a symbolic link at a path: among the
/// entries themselves, or below one of their directories.
pub open spec fn holds_file(entries: Seq<SizedNode>, rel: Seq<char>, f: FileFacts) -> bool
    decreases entries,
{
    exists|i: int|
        0 <= i < entries.len() && match (#[trigger] entries[i]).kind {
            SizedKind::File(bytes) => f == (FileFacts { path: joined(rel, entries[i].name@), bytes, symlink: false }),
            SizedKind::Symlink => f == (FileFacts { path: joined(rel, entries[i].name@), bytes: 0, symlink: true }),
            SizedKind::Directory(v) => holds_file(v@, joined(rel, entries[i].name@), f),
        }
}

proof fn lemma_plain_entries(entries: Seq<SizedNode>, rel: Seq<char>, f: FileFacts)
    ensures
        plain_entries(entries, rel).contains(f) <==> exists|i: int|
            0 <= i < entries.len() && match (#[trigger] entries[i]).kind {
                SizedKind::File(bytes) => f == (FileFacts {
                    path: joined(rel, entries[i].name@),
                    bytes,
                    symlink: false,
                }),
                SizedKind::Symlink => f == (FileFacts { path: joined(rel, entries[i].name@), bytes: 0, symlink: true }),
                SizedKind::Directory(_) => false,
            },
    decreases entries.len(),
{
    if entries.len() > 0 {
        let front = entries.drop_last();
        lemma_plain_entries(front, rel, f);
        let kept = plain_entries(front, rel);
        let all = plain_entries(entries, rel);
        if all.contains(f) {
            let k = choose|k: int| 0 <= k < all.len() && all[k] == f;
            if k < kept.len() {
                assert(kept[k] == f);
                let i = choose|i: int|
                    0 <= i < front.len() && match (#[trigger] front[i]).kind {
                        SizedKind::File(bytes) => f == (FileFacts {
                            path: joined(rel, front[i].name@),
                            bytes,
                            symlink: false,
                        }),
                        SizedKind::Symlink => f == (FileFacts {
                            path: joined(rel, front[i].name@),
                            bytes: 0,
                            symlink: true,
                        }),
                        SizedKind::Directory(_) => false,
                    };
                assert(entries[i] == front[i]);
            } else {
                assert(entries[entries.len() - 1] == entries.last());
            }
        }
        if exists|i: int|
            0 <= i < entries.len() && match (#[trigger] entries[i]).kind {
                SizedKind::File(bytes) => f == (FileFacts {
                    path: joined(rel, entries[i].name@),
                    bytes,
                    symlink: false,
                }),
                SizedKind::Symlink => f == (FileFacts { path: joined(rel, entries[i].name@), bytes: 0, symlink: true }),
                SizedKind::Directory(_) => false,
            } {
            let i = choose|i: int|
                0 <= i < entries.len() && match (#[trigger] entries[i]).kind {
                    SizedKind::File(bytes) => f == (FileFacts {
                        path: joined(rel, entries[i].name@),
                        bytes,
                        symlink: false,
                    }),
                    SizedKind::Symlink => f == (FileFacts {
                        path: joined(rel, entries[i].name@),
                        bytes: 0,
                        symlink: true,
                    }),
                    SizedKind::Directory(_) => false,
                };
            if i < front.len() {
                assert(front[i] == entries[i]);
                let k = choose|k: int| 0 <= k < kept.len() && kept[k] == f;
                assert(all[k] == f);
            } else {
                assert(all[all.len() - 1] == f);
            }
        }
    }
}

/// The record of a bundle lists exactly the files and symbolic links that are
/// under its directory, however deep, each at its own path and with its own
/// size; a link counts no bytes.
pub proof fn law_every_file_of_a_tree_is_recorded(entries: Seq<SizedNode>, rel: Seq<char>, f: FileFacts)
    ensures
        tree_entries(entries, rel).contains(f) <==> holds_file(entries, rel, f),
    decreases entries, 1int,
{
    lemma_plain_entries(entries, rel, f);
    lemma_entries_below(entries, rel, f);
    let plain = plain_entries(entries, rel);
    let below = entries_below(entries, rel);
    let all = tree_entries(entries, rel);
    if all.contains(f) {
        let k = choose|k: int| 0 <= k < all.len() && all[k] == f;
        if k < plain.len() {
            assert(plain[k] == f);
        } else {
            assert(below[k - plain.len()] == f);
        }
    }
    if plain.contains(f) {
        let k = choose|k: int| 0 <= k < plain.len() && plain[k] == f;
        assert(all[k] == f);
    }
    if below.contains(f) {
        let k = choose|k: int| 0 <= k < below.len() && below[k] == f;
        assert(all[plain.len() + k] == f);
    }
}

proof fn lemma_entries_below(entries: Seq<SizedNode>, rel: Seq<char>, f: FileFacts)
    ensures
        entries_below(entries, rel).contains(f) <==> exists|i: int|
            0 <= i < entries.len() && ((#[trigger] entries[i]).kind matches SizedKind::Directory(v) && holds_file(
                v@,
                joined(rel, entries[i].name@),
                f,
            )),
    decreases entries, 0int,
{
    if entries.len() > 0 {
        let n = entries.len() - 1;
        let node = entries[n];
        let front = entries.subrange(0, n);
        lemma_entries_below(front, rel, f);
        let kept = entries_below(front, rel);
        let all = entries_below(entries, rel);
        if let SizedKind::Directory(v) = node.kind {
            law_every_file_of_a_tree_is_recorded(v@, joined(rel, node.name@), f);
            let own = tree_entries(v@, joined(rel, node.name@));
            if all.contains(f) {
                let k = choose|k: int| 0 <= k < all.len() && all[k] == f;
                if k < own.len() {
                    assert(own[k] == f);
                    assert(entries[n].kind is Directory);
                } else {
                    assert(kept[k - own.len()] == f);
                }
            }
            if own.contains(f) {
                let k = choose|k: int| 0 <= k < own.len() && own[k] == f;
                assert(all[k] == f);
            }
            if kept.contains(f) {
                let k = choose|k: int| 0 <= k < kept.len() && kept[k] == f;
                assert(all[own.len() + k] == f);
            }
        }
        if kept.contains(f) {
            let i = choose|i: int|
                0 <= i < front.len() && ((#[trigger] front[i]).kind matches SizedKind::Directory(v) && holds_file(
                    v@,
                    joined(rel, front[i].name@),
                    f,
                ));
            assert(entries[i] == front[i]);
        }
        if exists|i: int|
            0 <= i < entries.len() && ((#[trigger] entries[i]).kind matches SizedKind::Directory(v) && holds_file(
                v@,
                joined(rel, entries[i].name@),
                f,
            )) {
            let i = choose|i: int|
                0 <= i < entries.len() && ((#[trigger] entries[i]).kind matches SizedKind::Directory(v) && holds_file(
                    v@,
                    joined(rel, entries[i].name@),
                    f,
                ));
            if i < n {
                assert(front[i] == entries[i]);
            }
        }
    }
}

/// A size below a million bytes reads back as the nearest kilobyte, and from
/// there on as the nearest tenth of a megabyte.
pub proof fn law_a_size_reads_back(bytes: nat) -> (t: Seq<char>)
    ensures
        bytes < 1_000_000 ==> size_text(bytes) == t + " KB"@ && all_digits(t) && nearest(
            place_value(t),
            bytes as int,
            1000,
        ),
        bytes >= 1_000_000 ==> size_text(bytes) == t + " MB"@ && exists|tenths: int|
            #[trigger] shows(t, 1, tenths) && nearest(tenths, bytes as int, 100_000),
{
    if bytes < 1_000_000 {
        law_decimal_is_worth_its_number((bytes + 500) / 1000);
        decimal((bytes + 500) / 1000)
    } else {
        let tenths = rounded(bytes, 100_000);
        law_rounding_is_to_the_nearest(bytes, 100_000);
        lemma_powers_of_ten();
        law_fixed_text_shows_its_number(tenths, 10, 1);
        let t = crate::number::fixed_text(tenths, 10, 1);
        assert(shows(t, 1, tenths as int));
        t
    }
}

/// The devices that are counted are those that are no root hub, and the buses
/// are those of all controllers together.
pub proof fn law_devices_are_counted_without_root_hubs(devices: Seq<UsbDeviceInfo>)
    ensures
        plugged(devices) == devices.filter(|d: UsbDeviceInfo| !crate::text::starts(d.port_chain@, "usb"@)).len(),
    decreases devices.len(),
{
    reveal(Seq::filter);
    if devices.len() > 0 {
        law_devices_are_counted_without_root_hubs(devices.drop_last());
    }
}

/// What is said of a host is what its files say: each fact from its own file,
/// and nothing where the file says nothing.
pub proof fn law_a_host_is_what_its_files_say(roots: HostRoots, virtualization: Option<Seq<char>>)
    ensures
        ({
            let h = host_facts(roots, virtualization);
            let of_proc = |name: Seq<char>| value_at(roots.proc_root@, name);
            &&& h.kernel == or_empty(of_proc("sys/kernel/osrelease"@))
            &&& h.proc_version == or_empty(of_proc("version"@))
            &&& h.soc == or_empty(value_at(roots.device_tree_root@, "compatible"@))
            &&& h.lockdown == or_empty(value_at(roots.sys_root@, "kernel/security/lockdown"@))
            &&& h.virtualization == virtualization
            &&& of_proc("cpuinfo"@) matches Some(t) ==> h.cpu_count == lines_of(t).filter(
                |l: Seq<char>| crate::text::starts(l, "processor"@),
            ).len()
            &&& of_proc("cpuinfo"@) is None ==> h.cpu_count == 0 && h.cpu_model.len() == 0
            &&& value_at(roots.device_tree_root@, "model"@) matches Some(m) ==> h.board == m
            &&& of_proc("meminfo"@) is None ==> h.mem_total_kb is None
            &&& of_proc("uptime"@) is None ==> h.uptime_s is None
            &&& of_proc("cmdline"@) is None ==> h.cmdline.len() == 0
        }),
        or_empty(None).len() == 0,
        forall|t: Seq<char>| #[trigger] or_empty(Some(t)) == t,
{
    if let Some(t) = value_at(roots.proc_root@, "cpuinfo"@) {
        law_lines_are_counted_by_how_they_start(lines_of(t), "processor"@);
    }
}

/// The memory of a host is the number behind `MemTotal:` on the first line
/// that starts so.
pub proof fn law_the_memory_is_the_number_behind_its_label(lines: Seq<Seq<char>>, text: Seq<char>, k: int, n: nat)
    requires
        lines == lines_of(text),
        0 <= k < lines.len(),
        crate::text::starts(lines[k], "MemTotal:"@),
        forall|j: int| 0 <= j < k ==> !crate::text::starts(#[trigger] lines[j], "MemTotal:"@),
        words_of(lines[k]).len() > 1,
        words_of(lines[k])[1] == decimal(n),
        n <= u64::MAX,
    ensures
        total_memory(text) == Some(n as u64),
{
    crate::text::laws::law_the_first_line_that_starts_so_is_found(lines, "MemTotal:"@, k);
    crate::number::lemma_decimal_round_trip(n);
}

/// The distribution is what stands behind `PRETTY_NAME=` on the first line
/// that starts so, without blanks and quotes around it.
pub proof fn law_the_distribution_is_its_pretty_name(lines: Seq<Seq<char>>, text: Seq<char>, k: int, name: Seq<char>)
    requires
        lines == lines_of(text),
        0 <= k < lines.len(),
        lines[k] == "PRETTY_NAME="@ + name,
        forall|j: int| 0 <= j < k ==> !crate::text::starts(#[trigger] lines[j], "PRETTY_NAME="@),
    ensures
        pretty_name(text) == Some(crate::text::unquoted(crate::text::trimmed(name))),
{
    let p = "PRETTY_NAME="@;
    assert(lines[k].take(p.len() as int) =~= p);
    assert(lines[k].skip(p.len() as int) =~= name);
    crate::text::laws::law_the_first_line_that_starts_so_is_found(lines, p, k);
}

/// An archive that is named by its file keeps that name, and any other target
/// is a directory in which the archive is called after the bundle.
pub proof fn law_an_archive_is_named_by_its_target(target: Seq<char>, now_unix: u64)
    ensures
        is_archive(target) <==> target.len() >= 7 && target.skip(target.len() - 7) == ".tar.gz"@,
        is_archive(target) ==> archive_name(target, now_unix) == crate::path::name_of(target),
        !is_archive(target) ==> archive_name(target, now_unix) == Some(
            "usbtop-ng-support-"@ + super::utc::stamp_text(now_unix) + ".tar.gz"@,
        ) && place_of(target) == target,
{
    reveal_strlit(".tar.gz");
}

} // verus!
