//! What a capture promises: payload never leaves, everything else of an event
//! stays, and every known attribute of every device is copied with its bytes.

use vstd::prelude::*;

use crate::fixture_replay::FixtureSource;
use crate::headless::{BusLine, DeviceLine};
use crate::number::{decimal, lemma_decimal_round_trip};
use crate::path::laws::{absolute, are_names, law_a_path_has_a_name_and_a_parent};
use crate::speed::unit_text;
use crate::sysfs::{Content, Node};
use crate::text::{join_with, lemma_first_index_is, words_of};

use super::meta::{controllers_of, device_speeds, device_types, speeds_of, types_of};
use super::sanitize::{before_tag, header_stripped, is_tag, lemma_before_tag, line_stripped};
use super::sysfs::{
    bytes_named, copied, copy_dir, device_attrs, device_copied, entries_copied, entry_copied, files_copied,
    interface_copied, ports_copied, sysfs_copied, under, Layout, StepFacts,
};
use super::trace::{claims_payload, events_stripped, lines_stripped, payload_len, ByteOrder};
use super::{
    bundle_plan, claimed_by, entry_fault, escape_below, escape_in, first_claim, first_fault, first_leak, is_contained,
    payload_fault, stage_named, starts_with_path, CapturedTrace,
};

verus! {

/// Stripping a header sets its payload length to zero and keeps every other
/// byte, the transferred length among them.
pub proof fn law_a_stripped_header_keeps_all_but_the_payload_length(header: Seq<u8>)
    requires
        header.len() == 48,
    ensures
        header_stripped(header).len() == 48,
        forall|i: int| 36 <= i < 40 ==> #[trigger] header_stripped(header)[i] == 0,
        forall|i: int| 0 <= i < 36 || 40 <= i < 48 ==> #[trigger] header_stripped(header)[i] == header[i],
{
}

/// The number that four bytes write, in either order.
pub open spec fn four_bytes(a: u8, b: u8, c: u8, d: u8, order: ByteOrder) -> int {
    match order {
        ByteOrder::Little => a + b * 256 + c * 65_536 + d * 16_777_216,
        ByteOrder::Big => d + c * 256 + b * 65_536 + a * 16_777_216,
    }
}

/// A stream comes out event by event: behind each header, as many payload
/// bytes as it claims are dropped, and what follows is the next event. An
/// event that is cut short ends the stream.
pub proof fn law_a_stream_is_stripped_event_by_event(
    header: Seq<u8>,
    payload: Seq<u8>,
    rest: Seq<u8>,
    order: ByteOrder,
)
    requires
        header.len() == 48,
        payload.len() == four_bytes(header[36], header[37], header[38], header[39], order),
    ensures
        events_stripped(header + payload + rest, order) == header_stripped(header) + events_stripped(rest, order),
        forall|n: int|
            0 <= n < 48 + payload.len() ==> (#[trigger] events_stripped((header + payload).take(n), order)).len() == 0,
{
    let raw = header + payload + rest;
    assert(raw.subrange(36, 40) =~= header.subrange(36, 40));
    assert(payload_len(raw, order) == payload.len());
    assert(raw.take(48) =~= header);
    assert(raw.skip(48 + payload.len() as int) =~= rest);
    assert forall|n: int| 0 <= n < 48 + payload.len() implies (#[trigger] events_stripped(
        (header + payload).take(n),
        order,
    )).len() == 0 by {
        let cut = (header + payload).take(n);
        if n >= 48 {
            assert(cut.subrange(36, 40) =~= header.subrange(36, 40));
        }
    }
}

/// A line is cut at its first data tag (`=`, `<` or `>` standing alone): the
/// words before it stay, and a bare `<` takes the place of the tag and of
/// everything behind it.
pub proof fn law_a_line_is_cut_at_its_data_tag(line: Seq<char>, k: int)
    requires
        0 <= k < words_of(line).len(),
        words_of(line)[k] == "="@ || words_of(line)[k] == "<"@ || words_of(line)[k] == ">"@,
        forall|j: int|
            0 <= j < k ==> (#[trigger] words_of(line)[j]) != "="@ && words_of(line)[j] != "<"@ && words_of(line)[j]
                != ">"@,
    ensures
        line_stripped(line) == join_with(words_of(line).take(k), " "@) + " <"@,
{
    let tokens = words_of(line);
    lemma_before_tag(tokens);
    let m = before_tag(tokens) as int;
    if m < k {
        assert(is_tag(tokens[m]));
    } else if m > k {
        assert(!is_tag(tokens[k]));
    }
}

/// Text comes out line by line, and what is not ended by a line feed is
/// dropped.
pub proof fn law_text_is_stripped_line_by_line(line: Seq<char>, rest: Seq<char>)
    requires
        !line.contains('\n'),
    ensures
        lines_stripped(line.push('\n') + rest) == line_stripped(line).push('\n') + lines_stripped(rest),
        lines_stripped(line).len() == 0,
{
    let text = line.push('\n') + rest;
    assert forall|j: int| 0 <= j < line.len() implies text[j] != '\n' by {
        assert(text[j] == line[j]);
    }
    lemma_first_index_is(text, '\n', line.len() as int);
    assert(text.take(line.len() as int) =~= line);
    assert(text.skip(line.len() as int + 1) =~= rest);
    lemma_first_index_is(line, '\n', line.len() as int);
}

proof fn lemma_first_claim(bytes: Seq<u8>, i: int, order: ByteOrder)
    requires
        0 <= i,
    ensures
        match first_claim(bytes, i, order) {
            Some(k) => {
                &&& i <= k && 48 * k + 48 <= bytes.len()
                &&& claims_payload(bytes, k)
                &&& forall|j: int| i <= j < k ==> !(#[trigger] claims_payload(bytes, j))
            },
            None => forall|j: int| i <= j && 48 * j + 48 <= bytes.len() ==> !(#[trigger] claims_payload(bytes, j)),
        },
    decreases bytes.len() - 48 * i,
{
    if 48 * i + 48 <= bytes.len() {
        let b = bytes.subrange(48 * i + 36, 48 * i + 40);
        assert(b[0] == bytes[48 * i + 36] && b[1] == bytes[48 * i + 37] && b[2] == bytes[48 * i + 38] && b[3]
            == bytes[48 * i + 39]);
        assert(claimed_by(bytes, i, order) == 0 <==> !claims_payload(bytes, i));
        if claimed_by(bytes, i, order) == 0 {
            lemma_first_claim(bytes, i + 1, order);
        }
    }
}

/// A binary trace passes exactly when it is made of whole headers that each
/// claim no payload; otherwise the fault names its length or the first record
/// that claims some, and how much.
pub proof fn law_a_binary_trace_passes_when_it_holds_no_payload(bytes: Seq<u8>, order: ByteOrder)
    requires
        bytes.len() <= usize::MAX,
    ensures
        payload_fault(FixtureSource::Binary, bytes, order) is None <==> bytes.len() % 48 == 0 && forall|i: int|
            0 <= i < bytes.len() / 48 ==> !(#[trigger] claims_payload(bytes, i)),
        match payload_fault(FixtureSource::Binary, bytes, order) {
            Some(super::PayloadFault::Cut { len }) => bytes.len() % 48 != 0 && len == bytes.len(),
            Some(super::PayloadFault::Claims { record, len_cap }) => {
                &&& bytes.len() % 48 == 0 && 48 * record + 48 <= bytes.len()
                &&& len_cap == four_bytes(
                    bytes[48 * record + 36],
                    bytes[48 * record + 37],
                    bytes[48 * record + 38],
                    bytes[48 * record + 39],
                    order,
                )
                &&& len_cap > 0
                &&& forall|j: int| 0 <= j < record ==> !(#[trigger] claims_payload(bytes, j))
            },
            Some(_) => false,
            None => true,
        },
{
    lemma_first_claim(bytes, 0, order);
    if bytes.len() % 48 == 0 {
        if let Some(k) = first_claim(bytes, 0, order) {
            let b = bytes.subrange(48 * k + 36, 48 * k + 40);
            assert(b[0] == bytes[48 * k + 36] && b[1] == bytes[48 * k + 37] && b[2] == bytes[48 * k + 38] && b[3]
                == bytes[48 * k + 39]);
            assert(claims_payload(bytes, k));
        }
    }
}

proof fn lemma_first_fault_is_there(entries: Seq<Node>, dir: Seq<char>, root: Seq<char>)
    requires
        first_fault(entries, dir, root) is Some,
    ensures
        exists|i: int| 0 <= i < entries.len() && entry_fault(#[trigger] entries[i], dir, root) is Some,
    decreases entries.len(),
{
    if entry_fault(entries[0], dir, root) is None {
        lemma_first_fault_is_there(entries.skip(1), dir, root);
        let i = choose|i: int|
            0 <= i < entries.skip(1).len() && entry_fault(#[trigger] entries.skip(1)[i], dir, root) is Some;
        assert(entries[i + 1] == entries.skip(1)[i]);
    } else {
        assert(entry_fault(entries[0], dir, root) is Some);
    }
}

/// Whether every directory of a tree could be listed, however deep.
pub open spec fn is_listed(entries: Seq<Node>) -> bool
    decreases entries,
{
    forall|i: int|
        0 <= i < entries.len() ==> {
            &&& !((#[trigger] entries[i]).content is Unlisted)
            &&& entries[i].content matches Content::Directory(v) ==> is_listed(v@)
        }
}

/// A tree that was listed whole, in which every entry resolves inside the
/// root, is never refused.
pub proof fn law_a_contained_tree_is_accepted(entries: Seq<Node>, dir: Seq<char>, root: Seq<char>)
    requires
        is_contained(entries, root),
        is_listed(entries),
    ensures
        escape_in(entries, dir, root) is None,
    decreases entries, 1int,
{
    if first_fault(entries, dir, root) is Some {
        lemma_first_fault_is_there(entries, dir, root);
        let i = choose|i: int| 0 <= i < entries.len() && entry_fault(#[trigger] entries[i], dir, root) is Some;
        assert(entries[i].canonical is Some);
    }
    lemma_nothing_escapes_below(entries, root);
}

proof fn lemma_nothing_escapes_below(entries: Seq<Node>, root: Seq<char>)
    requires
        is_contained(entries, root),
        is_listed(entries),
    ensures
        escape_below(entries, root) is None,
    decreases entries, 0int,
{
    if entries.len() > 0 {
        let node = entries[entries.len() - 1];
        let front = entries.subrange(0, entries.len() - 1);
        assert(node.canonical is Some);
        assert(is_contained(front, root)) by {
            assert forall|i: int| 0 <= i < front.len() implies (#[trigger] front[i]).canonical is Some
                && starts_with_path((front[i].canonical->0)@, root) && (front[i].content matches Content::Directory(v)
                ==> is_contained(v@, root)) by {
                assert(entries[i] == front[i]);
            }
        }
        assert(is_listed(front)) by {
            assert forall|i: int| 0 <= i < front.len() implies !((#[trigger] front[i]).content is Unlisted) && (
            front[i].content matches Content::Directory(v) ==> is_listed(v@)) by {
                assert(entries[i] == front[i]);
            }
        }
        if let Content::Directory(v) = node.content {
            law_a_contained_tree_is_accepted(v@, (node.canonical->0)@, root);
        }
        lemma_nothing_escapes_below(front, root);
    }
}

/// Whether `a` is how `b` starts.
spec fn grows(a: Seq<StepFacts>, b: Seq<StepFacts>) -> bool {
    a.len() <= b.len() && forall|i: int| 0 <= i < a.len() ==> #[trigger] b[i] == a[i]
}

proof fn lemma_interface_grows(before: Layout, hub: Seq<char>, dst: Seq<char>, entries: Seq<Node>)
    ensures
        grows(before.steps, interface_copied(before, hub, dst, entries).steps),
    decreases entries.len(),
{
    if entries.len() > 0 {
        lemma_interface_grows(before, hub, dst, entries.drop_last());
        let mid = interface_copied(before, hub, dst, entries.drop_last()).steps;
        assert forall|i: int| 0 <= i < before.steps.len() implies #[trigger] interface_copied(
            before,
            hub,
            dst,
            entries,
        ).steps[i] == before.steps[i] by {
            assert(mid[i] == before.steps[i]);
        }
    }
}

proof fn lemma_ports_grow(before: Layout, hub: Seq<char>, dst: Seq<char>, children: Seq<Node>)
    ensures
        grows(before.steps, ports_copied(before, hub, dst, children).steps),
    decreases children.len(),
{
    if children.len() > 0 {
        lemma_ports_grow(before, hub, dst, children.drop_last());
        let front = ports_copied(before, hub, dst, children.drop_last());
        let child = children.last();
        lemma_interface_grows(front, hub, under(dst, child.name@), child.children());
        assert forall|i: int| 0 <= i < before.steps.len() implies #[trigger] ports_copied(
            before,
            hub,
            dst,
            children,
        ).steps[i] == before.steps[i] by {
            assert(front.steps[i] == before.steps[i]);
        }
    }
}

proof fn lemma_entry_grows(before: Layout, node: Node, dst: Seq<char>)
    ensures
        grows(before.steps, entry_copied(before, node, dst).steps),
{
    if !node.name@.contains(':') {
        let mid = Layout { steps: before.steps + device_copied(node, dst), ..before };
        lemma_ports_grow(mid, node.name@, copy_dir(node, dst), node.children());
        let after = entry_copied(before, node, dst);
        assert forall|i: int| 0 <= i < before.steps.len() implies #[trigger] after.steps[i] == before.steps[i] by {
            assert(mid.steps[i] == before.steps[i]);
        }
    }
}

proof fn lemma_files_copied(entries: Seq<Node>, dst: Seq<char>, names: Seq<Seq<char>>, k: int)
    requires
        0 <= k < names.len(),
        bytes_named(entries, names[k]) is Some,
    ensures
        files_copied(entries, dst, names).contains(
            (StepFacts::File { path: under(dst, names[k]), bytes: bytes_named(entries, names[k])->0 }),
        ),
    decreases names.len(),
{
    let all = files_copied(entries, dst, names);
    let wanted = StepFacts::File { path: under(dst, names[k]), bytes: bytes_named(entries, names[k])->0 };
    if k == names.len() - 1 {
        assert(all.last() == wanted);
    } else {
        assert(names.drop_last()[k] == names[k]);
        lemma_files_copied(entries, dst, names.drop_last(), k);
        let front = files_copied(entries, dst, names.drop_last());
        let i = choose|i: int| 0 <= i < front.len() && front[i] == wanted;
        assert(all[i] == wanted);
    }
}

/// Whether a name is one of a device's attributes that a fixture holds.
pub open spec fn is_device_attribute(name: Seq<char>) -> bool {
    name == "busnum"@ || name == "devnum"@ || name == "speed"@ || name == "idVendor"@ || name == "idProduct"@ || name
        == "manufacturer"@ || name == "product"@ || name == "version"@
}

/// Every attribute of every device that a fixture holds is copied, byte for
/// byte, under the device's own name, when its file could be read.
pub proof fn law_every_known_attribute_is_copied(entries: Seq<Node>, dst: Seq<char>, d: int, name: Seq<char>)
    requires
        0 <= d < entries.len(),
        !entries[d].name@.contains(':'),
        is_device_attribute(name),
        bytes_named(entries[d].children(), name) is Some,
    ensures
        sysfs_copied(entries, dst).contains(
            (StepFacts::File {
                path: copy_dir(entries[d], dst) + "/"@ + name,
                bytes: bytes_named(entries[d].children(), name)->0,
            }),
        ),
    decreases entries.len(),
{
    let wanted = StepFacts::File {
        path: copy_dir(entries[d], dst) + "/"@ + name,
        bytes: bytes_named(entries[d].children(), name)->0,
    };
    let i = lemma_attribute_among(entries, dst, d, name);
    let layout = entries_copied(entries, dst);
    assert(sysfs_copied(entries, dst)[i] == wanted);
}

proof fn lemma_attribute_among(entries: Seq<Node>, dst: Seq<char>, d: int, name: Seq<char>) -> (i: int)
    requires
        0 <= d < entries.len(),
        !entries[d].name@.contains(':'),
        is_device_attribute(name),
        bytes_named(entries[d].children(), name) is Some,
    ensures
        0 <= i < entries_copied(entries, dst).steps.len(),
        entries_copied(entries, dst).steps[i] == (StepFacts::File {
            path: copy_dir(entries[d], dst) + "/"@ + name,
            bytes: bytes_named(entries[d].children(), name)->0,
        }),
    decreases entries.len(),
{
    let before = entries_copied(entries.drop_last(), dst);
    let node = entries.last();
    let after = entries_copied(entries, dst);
    lemma_entry_grows(before, node, dst);
    if d < entries.len() - 1 {
        assert(entries.drop_last()[d] == entries[d]);
        let i = lemma_attribute_among(entries.drop_last(), dst, d, name);
        assert(after.steps[i] == before.steps[i]);
        i
    } else {
        let attrs = device_attrs();
        let k: int = if name == "busnum"@ {
            0
        } else if name == "devnum"@ {
            1
        } else if name == "speed"@ {
            2
        } else if name == "idVendor"@ {
            3
        } else if name == "idProduct"@ {
            4
        } else if name == "manufacturer"@ {
            5
        } else if name == "product"@ {
            6
        } else {
            7
        };
        assert(attrs[k] == name);
        let dir = copy_dir(node, dst);
        lemma_files_copied(node.children(), dir, attrs, k);
        let files = files_copied(node.children(), dir, attrs);
        let wanted = StepFacts::File { path: under(dir, name), bytes: bytes_named(node.children(), name)->0 };
        let j = choose|j: int| 0 <= j < files.len() && files[j] == wanted;
        let own = device_copied(node, dst);
        assert(own[j + 1] == wanted);
        let mid = Layout { steps: before.steps + own, ..before };
        lemma_ports_grow(mid, node.name@, dir, node.children());
        let i = before.steps.len() + j + 1;
        assert(mid.steps[i] == wanted);
        assert(after.steps[i] == wanted);
        i
    }
}

/// A fixture's directory for a device is its own name below the given one,
/// and for a root hub, `usb` and a number, below its controller's.
pub proof fn law_a_device_is_copied_under_its_own_name(node: Node, dst: Seq<char>)
    ensures
        node.canonical is None ==> copy_dir(node, dst) == dst + "/"@ + node.name@,
        !crate::text::starts(node.name@, "usb"@) ==> copy_dir(node, dst) == dst + "/"@ + node.name@,
{
}

proof fn lemma_controllers(buses: Seq<BusLine>, c: Seq<char>)
    ensures
        controllers_of(buses).contains(c) <==> exists|b: int|
            0 <= b < buses.len() && (#[trigger] buses[b]).controller == Some(c),
    decreases buses.len(),
{
    if buses.len() > 0 {
        let front = buses.drop_last();
        lemma_controllers(front, c);
        let kept = controllers_of(front);
        let all = controllers_of(buses);
        if all.contains(c) {
            let i = choose|i: int| 0 <= i < all.len() && all[i] == c;
            if i < kept.len() {
                assert(kept[i] == c);
                let b = choose|b: int| 0 <= b < front.len() && (#[trigger] front[b]).controller == Some(c);
                assert(buses[b].controller == Some(c));
            } else {
                assert(buses[buses.len() - 1].controller == Some(c));
            }
        }
        if exists|b: int| 0 <= b < buses.len() && (#[trigger] buses[b]).controller == Some(c) {
            let b = choose|b: int| 0 <= b < buses.len() && (#[trigger] buses[b]).controller == Some(c);
            if b < front.len() {
                assert(front[b].controller == Some(c));
                let i = choose|i: int| 0 <= i < kept.len() && kept[i] == c;
                assert(all[i] == c);
            } else {
                assert(all[all.len() - 1] == c);
            }
        }
    }
}

proof fn lemma_device_speeds(devices: Seq<DeviceLine>, t: Seq<char>)
    ensures
        device_speeds(devices).contains(t) <==> exists|k: int|
            0 <= k < devices.len() && (#[trigger] devices[k]).speed.bps > 0 && t == unit_text(
                devices[k].speed.bps as nat,
                1_000_000,
            ),
    decreases devices.len(),
{
    if devices.len() > 0 {
        let front = devices.drop_last();
        lemma_device_speeds(front, t);
        let kept = device_speeds(front);
        let all = device_speeds(devices);
        if all.contains(t) {
            let i = choose|i: int| 0 <= i < all.len() && all[i] == t;
            if i < kept.len() {
                assert(kept[i] == t);
                let k = choose|k: int|
                    0 <= k < front.len() && (#[trigger] front[k]).speed.bps > 0 && t == unit_text(
                        front[k].speed.bps as nat,
                        1_000_000,
                    );
                assert(devices[k] == front[k]);
            } else {
                assert(devices[devices.len() - 1].speed.bps > 0);
            }
        }
        if exists|k: int|
            0 <= k < devices.len() && (#[trigger] devices[k]).speed.bps > 0 && t == unit_text(
                devices[k].speed.bps as nat,
                1_000_000,
            ) {
            let k = choose|k: int|
                0 <= k < devices.len() && (#[trigger] devices[k]).speed.bps > 0 && t == unit_text(
                    devices[k].speed.bps as nat,
                    1_000_000,
                );
            if k < front.len() {
                assert(front[k] == devices[k]);
                let i = choose|i: int| 0 <= i < kept.len() && kept[i] == t;
                assert(all[i] == t);
            } else {
                assert(all[all.len() - 1] == t);
            }
        }
    }
}

proof fn lemma_device_types(devices: Seq<DeviceLine>, t: Seq<char>)
    ensures
        device_types(devices).contains(t) <==> exists|k: int, e: int|
            0 <= k < devices.len() && 0 <= e < devices[k].endpoints.len() && (
            #[trigger] devices[k].endpoints[e]).transfer_type == t,
    decreases devices.len(),
{
    if devices.len() > 0 {
        let front = devices.drop_last();
        lemma_device_types(front, t);
        let kept = device_types(front);
        let all = device_types(devices);
        let own = super::meta::endpoint_types(devices.last().endpoints);
        if all.contains(t) {
            let i = choose|i: int| 0 <= i < all.len() && all[i] == t;
            if i < kept.len() {
                assert(kept[i] == t);
                let (k, e) = choose|k: int, e: int|
                    0 <= k < front.len() && 0 <= e < front[k].endpoints.len() && (
                    #[trigger] front[k].endpoints[e]).transfer_type == t;
                assert(devices[k].endpoints[e].transfer_type == t);
            } else {
                assert(devices[devices.len() - 1].endpoints[i - kept.len()].transfer_type == t);
            }
        }
        if exists|k: int, e: int|
            0 <= k < devices.len() && 0 <= e < devices[k].endpoints.len() && (
            #[trigger] devices[k].endpoints[e]).transfer_type == t {
            let (k, e) = choose|k: int, e: int|
                0 <= k < devices.len() && 0 <= e < devices[k].endpoints.len() && (
                #[trigger] devices[k].endpoints[e]).transfer_type == t;
            if k < front.len() {
                assert(front[k].endpoints[e].transfer_type == t);
                let i = choose|i: int| 0 <= i < kept.len() && kept[i] == t;
                assert(all[i] == t);
            } else {
                assert(own[e] == t);
                assert(all[kept.len() + e] == t);
            }
        }
    }
}

proof fn lemma_speeds(buses: Seq<BusLine>, t: Seq<char>)
    ensures
        speeds_of(buses).contains(t) <==> exists|b: int, k: int|
            0 <= b < buses.len() && 0 <= k < buses[b].devices.len() && (#[trigger] buses[b].devices[k]).speed.bps > 0 && t
                == unit_text(buses[b].devices[k].speed.bps as nat, 1_000_000),
    decreases buses.len(),
{
    if buses.len() > 0 {
        let front = buses.drop_last();
        lemma_speeds(front, t);
        let last = buses.last();
        lemma_device_speeds(last.devices, t);
        let speeds = speeds_of(buses);
        let kept = speeds_of(front);
        let own = device_speeds(last.devices);
        if speeds.contains(t) {
            let i = choose|i: int| 0 <= i < speeds.len() && speeds[i] == t;
            if i < kept.len() {
                assert(kept[i] == t);
                let (b, k) = choose|b: int, k: int|
                    0 <= b < front.len() && 0 <= k < front[b].devices.len() && (
                    #[trigger] front[b].devices[k]).speed.bps > 0 && t == unit_text(
                        front[b].devices[k].speed.bps as nat,
                        1_000_000,
                    );
                assert(buses[b].devices[k] == front[b].devices[k]);
            } else {
                assert(own[i - kept.len()] == t);
                let k = choose|k: int|
                    0 <= k < last.devices.len() && (#[trigger] last.devices[k]).speed.bps > 0 && t == unit_text(
                        last.devices[k].speed.bps as nat,
                        1_000_000,
                    );
                assert(buses[buses.len() - 1].devices[k].speed.bps > 0);
            }
        }
        if exists|b: int, k: int|
            0 <= b < buses.len() && 0 <= k < buses[b].devices.len() && (#[trigger] buses[b].devices[k]).speed.bps > 0 && t
                == unit_text(buses[b].devices[k].speed.bps as nat, 1_000_000) {
            let (b, k) = choose|b: int, k: int|
                0 <= b < buses.len() && 0 <= k < buses[b].devices.len() && (#[trigger] buses[b].devices[k]).speed.bps > 0
                    && t == unit_text(buses[b].devices[k].speed.bps as nat, 1_000_000);
            if b < front.len() {
                assert(front[b].devices[k] == buses[b].devices[k]);
                let i = choose|i: int| 0 <= i < kept.len() && kept[i] == t;
                assert(speeds[i] == t);
            } else {
                assert(last.devices[k].speed.bps > 0);
                let i = choose|i: int| 0 <= i < own.len() && own[i] == t;
                assert(speeds[kept.len() + i] == t);
            }
        }
    }
}

proof fn lemma_types(buses: Seq<BusLine>, t: Seq<char>)
    ensures
        types_of(buses).contains(t) <==> exists|b: int|
            0 <= b < buses.len() && device_types((#[trigger] buses[b]).devices).contains(t),
    decreases buses.len(),
{
    if buses.len() > 0 {
        let front = buses.drop_last();
        lemma_types(front, t);
        let last = buses.last();
        let types = types_of(buses);
        let kept_types = types_of(front);
        let own_types = device_types(last.devices);
        if types.contains(t) {
            let i = choose|i: int| 0 <= i < types.len() && types[i] == t;
            if i < kept_types.len() {
                assert(kept_types[i] == t);
                let b = choose|b: int| 0 <= b < front.len() && device_types((#[trigger] front[b]).devices).contains(t);
                assert(buses[b] == front[b]);
            } else {
                assert(own_types[i - kept_types.len()] == t);
                assert(device_types(buses[buses.len() - 1].devices).contains(t));
            }
        }
        if exists|b: int| 0 <= b < buses.len() && device_types((#[trigger] buses[b]).devices).contains(t) {
            let b = choose|b: int| 0 <= b < buses.len() && device_types((#[trigger] buses[b]).devices).contains(t);
            if b < front.len() {
                assert(front[b] == buses[b]);
                let i = choose|i: int| 0 <= i < kept_types.len() && kept_types[i] == t;
                assert(types[i] == t);
            } else {
                let i = choose|i: int| 0 <= i < own_types.len() && own_types[i] == t;
                assert(types[kept_types.len() + i] == t);
            }
        }
    }
}

/// The coverage tags of a capture are those that its report shows: a
/// controller when a bus names it, a speed when a device has it, and a
/// transfer type when an endpoint has it, and no others.
pub proof fn law_tags_are_what_the_report_shows(buses: Seq<BusLine>, t: Seq<char>)
    ensures
        controllers_of(buses).contains(t) <==> exists|b: int|
            0 <= b < buses.len() && (#[trigger] buses[b]).controller == Some(t),
        speeds_of(buses).contains(t) <==> exists|b: int, k: int|
            0 <= b < buses.len() && 0 <= k < buses[b].devices.len() && (#[trigger] buses[b].devices[k]).speed.bps > 0 && t
                == unit_text(buses[b].devices[k].speed.bps as nat, 1_000_000),
        types_of(buses).contains(t) <==> exists|b: int|
            0 <= b < buses.len() && device_types((#[trigger] buses[b]).devices).contains(t),
{
    lemma_controllers(buses, t);
    lemma_speeds(buses, t);
    lemma_types(buses, t);
}

/// The transfer types of some devices are those of their endpoints.
pub proof fn law_a_transfer_type_is_an_endpoints(devices: Seq<DeviceLine>, t: Seq<char>)
    ensures
        device_types(devices).contains(t) <==> exists|k: int, e: int|
            0 <= k < devices.len() && 0 <= e < devices[k].endpoints.len() && (
            #[trigger] devices[k].endpoints[e]).transfer_type == t,
{
    lemma_device_types(devices, t);
}

proof fn lemma_first_leak(traces: Seq<CapturedTrace>, order: ByteOrder)
    ensures
        first_leak(traces, order) <= traces.len(),
        forall|j: int|
            0 <= j < first_leak(traces, order) ==> payload_fault(
                (#[trigger] traces[j]).source,
                traces[j].bytes@,
                order,
            ) is None,
        first_leak(traces, order) < traces.len() ==> payload_fault(
            traces[first_leak(traces, order) as int].source,
            traces[first_leak(traces, order) as int].bytes@,
            order,
        ) is Some,
    decreases traces.len(),
{
    if traces.len() > 0 && payload_fault(traces[0].source, traces[0].bytes@, order) is None {
        lemma_first_leak(traces.skip(1), order);
        assert forall|j: int| 0 <= j < first_leak(traces, order) implies payload_fault(
            (#[trigger] traces[j]).source,
            traces[j].bytes@,
            order,
        ) is None by {
            if j > 0 {
                assert(traces.skip(1)[j - 1] == traces[j]);
            }
        }
    }
}

/// A bundle is written whole exactly when it is not stale and no trace holds
/// payload: a trace that does is never written, nor any behind it, nor
/// `meta.toml`.
pub proof fn law_a_trace_with_payload_is_never_written(
    stale: bool,
    entries: Seq<Node>,
    traces: Seq<CapturedTrace>,
    order: ByteOrder,
    i: int,
)
    requires
        0 <= i < traces.len() <= usize::MAX,
        payload_fault(traces[i].source, traces[i].bytes@, order) is Some,
    ensures
        bundle_plan(stale, entries, traces, order).1 is Some,
        forall|k: int|
            0 <= k < bundle_plan(stale, entries, traces, order).0.len() ==> ((
            #[trigger] bundle_plan(stale, entries, traces, order).0[k]) matches super::BundleFacts::WriteTrace(n) ==> n
                < i) && !(bundle_plan(stale, entries, traces, order).0[k] is WriteMeta),
        stale ==> bundle_plan(stale, entries, traces, order).0.len() == 0,
{
    lemma_first_leak(traces, order);
    let k = first_leak(traces, order);
    if k > i {
        assert(payload_fault(traces[i].source, traces[i].bytes@, order) is None);
    }
    let plan = bundle_plan(stale, entries, traces, order).0;
    if !stale {
        let opening = super::opening_steps(entries);
        let tree = super::tree_steps(entries);
        assert forall|m: int| 0 <= m < plan.len() implies ((#[trigger] plan[m]) matches super::BundleFacts::WriteTrace(n)
            ==> n < i) && !(plan[m] is WriteMeta) by {
            if m < opening.len() {
                assert(plan[m] == opening[m]);
                if m < tree.len() {
                    assert(opening[m] == tree[m]);
                }
            } else {
                assert(plan[m] == super::trace_steps(k)[m - opening.len()]);
            }
        }
    }
}

/// A directory called `stage` and a number is that stage's, and one called
/// otherwise is none's.
pub proof fn law_a_stage_is_named_by_its_directory(names: Seq<Seq<char>>, n: nat, name: Seq<char>)
    requires
        are_names(names),
        n <= u32::MAX,
        are_names(names.push(name)),
        !crate::text::starts(name, "stage"@),
    ensures
        stage_named(absolute(names.push("stage"@ + decimal(n)))) == Some(n),
        stage_named(absolute(names.push(name))) is None,
{
    reveal_strlit("stage");
    lemma_decimal_round_trip(n);
    let stage = "stage"@ + decimal(n);
    let all = names.push(stage);
    assert forall|i: int| 0 <= i < all.len() implies (#[trigger] all[i]).len() > 0 && !all[i].contains('/') && all[i]
        != seq!['.'] && all[i] != seq!['.', '.'] by {
        if i < names.len() {
            assert(all[i] == names[i]);
        } else {
            assert(stage[0] == 's');
            assert forall|k: int| 0 <= k < stage.len() implies stage[k] != '/' by {
                if k >= 5 {
                    assert(stage[k] == decimal(n)[k - 5]);
                }
            }
            assert(seq!['.'][0] == '.' && seq!['.', '.'][0] == '.');
        }
    }
    law_a_path_has_a_name_and_a_parent(names, stage);
    law_a_path_has_a_name_and_a_parent(names, name);
    assert(stage.take(5) =~= "stage"@);
    assert(stage.skip(5) =~= decimal(n));
}

} // verus!
