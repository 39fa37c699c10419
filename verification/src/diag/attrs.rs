//! Raw descriptor blobs, and every readable attribute below the entries of a
//! class or bus directory.

use vstd::prelude::*;
use vstd::utf8::*;

use crate::capture::sysfs::{copy_bytes, file_bytes};

use crate::diag::files::{in_order, list, nodes_of};
use crate::diag::inventory::{device_nodes, list_devices};
use crate::diag::{note, notes, Note, NoteFacts};
use crate::path::{join_path, joined, last_name, name_of};
use crate::sysfs::{entry_named, find_entry, Content, Node};
use crate::table::NameTable;
use crate::text::{decode, encode, extend, extend_str, from_chars, str_eq, to_chars, trim, trimmed};

verus! {

/// The raw `descriptors` and `bos_descriptors` blobs of one device.
#[derive(Debug)]
pub struct DescriptorBlob {
    pub port_chain: String,
    pub descriptors: Vec<u8>,
    pub bos: Option<Vec<u8>>,
}

/// What a `DescriptorBlob` says.
pub struct BlobFacts {
    pub port_chain: Seq<char>,
    pub descriptors: Seq<u8>,
    pub bos: Option<Seq<u8>>,
}

impl View for DescriptorBlob {
    type V = BlobFacts;

    open spec fn view(&self) -> BlobFacts {
        BlobFacts {
            port_chain: self.port_chain@,
            descriptors: self.descriptors@,
            bos: match self.bos {
                Some(b) => Some(b@),
                None => None,
            },
        }
    }
}

/// What several blobs say.
pub open spec fn blob_facts(v: Seq<DescriptorBlob>) -> Seq<BlobFacts> {
    v.map_values(|b: DescriptorBlob| b@)
}

/// Why reading a file failed; none when it did not.
pub open spec fn read_failure(entry: Option<Node>) -> Option<Seq<char>> {
    match entry {
        None => Some("No such file or directory (os error 2)"@),
        Some(n) => match n.content {
            Content::Absent => Some("No such file or directory (os error 2)"@),
            Content::Unreadable(e) => Some(e@),
            Content::Unlisted(_) => Some("Is a directory (os error 21)"@),
            Content::Directory(_) => Some("Is a directory (os error 21)"@),
            _ => None,
        },
    }
}

/// The note about a file that could not be read.
pub open spec fn unread(item: Seq<char>, reason: Seq<char>) -> NoteFacts {
    NoteFacts { item, reason: "could not read: "@ + reason }
}

/// What one device adds: its blobs when `descriptors` is readable, and notes
/// about what is not. A missing `bos_descriptors` is normal and is not noted.
pub open spec fn device_blob(node: Node) -> (Option<BlobFacts>, Seq<NoteFacts>) {
    let main = entry_named(node.children(), "descriptors"@);
    let bos = entry_named(node.children(), "bos_descriptors"@);
    match read_failure(main) {
        Some(e) => (None, seq![unread(node.name@ + "/descriptors"@, e)]),
        None => {
            let facts = BlobFacts {
                port_chain: node.name@,
                descriptors: file_bytes(main->0)->0,
                bos: None,
            };
            match bos {
                None => (Some(facts), Seq::empty()),
                Some(b) => if b.content is Absent {
                    (Some(facts), Seq::empty())
                } else {
                    match read_failure(bos) {
                        Some(e) => (Some(facts), seq![unread(node.name@ + "/bos_descriptors"@, e)]),
                        None => (Some((BlobFacts { bos: Some(file_bytes(b)->0), ..facts })), Seq::empty()),
                    }
                },
            }
        },
    }
}

/// The blobs of several devices.
pub open spec fn blobs_of(nodes: Seq<Node>) -> Seq<BlobFacts>
    decreases nodes.len(),
{
    if nodes.len() == 0 {
        Seq::empty()
    } else {
        match device_blob(nodes.last()).0 {
            Some(b) => blobs_of(nodes.drop_last()).push(b),
            None => blobs_of(nodes.drop_last()),
        }
    }
}

/// The notes about several devices.
pub open spec fn blob_notes(nodes: Seq<Node>) -> Seq<NoteFacts>
    decreases nodes.len(),
{
    if nodes.len() == 0 {
        Seq::empty()
    } else {
        blob_notes(nodes.drop_last()) + device_blob(nodes.last()).1
    }
}

/// The bytes of the file `name` of a device, or why they could not be read;
/// nothing at all when there is no such file.
fn read_named(node: &Node, name: &str) -> (r: Option<Result<Vec<u8>, String>>)
    ensures
        ({
            let entry = entry_named(node.children(), name@);
            match r {
                None => entry is None || entry->0.content is Absent,
                Some(Ok(b)) => entry is Some && read_failure(entry) is None && file_bytes(entry->0) == Some(b@),
                Some(Err(e)) => entry is Some && !(entry->0.content is Absent) && read_failure(entry) == Some(e@),
            }
        }),
{
    let found = match &node.content {
        Content::Directory(v) => find_entry(v, name),
        _ => None,
    };
    assert(match found {
        Some(n) => entry_named(node.children(), name@) == Some(*n),
        None => entry_named(node.children(), name@) is None,
    });
    match found {
        None => None,
        Some(n) => match &n.content {
            Content::Text(t) => Some(Ok(encode(t.as_str()))),
            Content::Bytes(b) => Some(Ok(copy_bytes(b))),
            Content::Absent => None,
            Content::Unreadable(e) => Some(Err(e.clone())),
            Content::Unlisted(_) => Some(Err("Is a directory (os error 21)".to_owned())),
            Content::Directory(_) => Some(Err("Is a directory (os error 21)".to_owned())),
        },
    }
}

fn unread_note(device: &str, file: &str, reason: &str) -> (r: Note)
    ensures
        r@ == unread(device@ + file@, reason@),
{
    let mut item = to_chars(device);
    extend_str(&mut item, file);
    let mut text = to_chars("could not read: ");
    extend_str(&mut text, reason);
    note(from_chars(&item).as_str(), from_chars(&text).as_str())
}

/// Every device's descriptor blobs to their real length. A device without a
/// readable `descriptors` file is noted; a missing `bos_descriptors` is
/// normal and is not.
pub fn read_descriptor_blobs(entries: &Vec<Node>) -> (r: (Vec<DescriptorBlob>, Vec<Note>))
    ensures
        blob_facts(r.0@) == blobs_of(device_nodes(entries@)),
        notes(r.1@) == blob_notes(device_nodes(entries@)),
{
    let nodes = list_devices(entries);
    let ghost all = nodes_of(nodes@);
    let mut blobs: Vec<DescriptorBlob> = Vec::new();
    let mut said: Vec<Note> = Vec::new();
    let mut i: usize = 0;
    assert(all.take(0) =~= Seq::<Node>::empty());
    assert(blob_facts(blobs@) =~= Seq::<BlobFacts>::empty());
    assert(notes(said@) =~= Seq::<NoteFacts>::empty());
    while i < nodes.len()
        invariant
            i <= nodes@.len(),
            all == nodes_of(nodes@),
            blob_facts(blobs@) == blobs_of(all.take(i as int)),
            notes(said@) == blob_notes(all.take(i as int)),
        decreases nodes@.len() - i,
    {
        assert(all.take(i + 1).drop_last() =~= all.take(i as int));
        let node = nodes[i].node;
        assert(all[i as int] == *node);
        let ghost old_blobs = blob_facts(blobs@);
        let ghost old_notes = notes(said@);
        match read_named(node, "descriptors") {
            None => {
                said.push(unread_note(node.name.as_str(), "/descriptors", "No such file or directory (os error 2)"));
                assert(notes(said@) =~= old_notes + device_blob(*node).1);
            },
            Some(Err(e)) => {
                said.push(unread_note(node.name.as_str(), "/descriptors", e.as_str()));
                assert(notes(said@) =~= old_notes + device_blob(*node).1);
            },
            Some(Ok(descriptors)) => {
                let bos = match read_named(node, "bos_descriptors") {
                    None => None,
                    Some(Ok(b)) => Some(b),
                    Some(Err(e)) => {
                        said.push(unread_note(node.name.as_str(), "/bos_descriptors", e.as_str()));
                        None
                    },
                };
                assert(notes(said@) =~= old_notes + device_blob(*node).1);
                let blob = DescriptorBlob { port_chain: node.name.clone(), descriptors, bos };
                let ghost facts = blob@;
                blobs.push(blob);
                assert(blob_facts(blobs@) =~= old_blobs.push(facts));
            },
        }
        i = i + 1;
    }
    assert(all.take(all.len() as int) =~= all);
    (blobs, said)
}

/// Largest attribute value that is recorded; longer values are cut.
pub const ATTR_VALUE_CAP: usize = 4096;

/// One top-level entry of a class or bus directory and every readable
/// attribute under it, keyed by relative path.
pub struct AttrDump {
    pub name: String,
    pub attrs: NameTable<String>,
}

/// What an `AttrDump` says.
pub struct DumpFacts {
    pub name: Seq<char>,
    pub attrs: Map<Seq<char>, Seq<char>>,
}

/// The texts of a table.
pub open spec fn texts(m: Map<Seq<char>, String>) -> Map<Seq<char>, Seq<char>> {
    m.map_values(|s: String| s@)
}

impl View for AttrDump {
    type V = DumpFacts;

    open spec fn view(&self) -> DumpFacts {
        DumpFacts { name: self.name@, attrs: texts(self.attrs@) }
    }
}

/// Directories never walked: runtime-PM noise recorded elsewhere for USB
/// devices, and two links that point out of the tree.
pub open spec fn is_skipped_dir(name: Seq<char>) -> bool {
    name == "power"@ || name == "subsystem"@ || name == "firmware_node"@
}

/// Files never read: a device's firmware image, and a Thunderbolt device's
/// stored authentication secret.
pub open spec fn is_skipped_file(name: Seq<char>) -> bool {
    name == "nvmem"@ || name == "key"@
}

/// Whether a directory of this name is walked.
pub fn walks_into(name: &str) -> (r: bool)
    ensures
        r == !is_skipped_dir(name@),
{
    !str_eq(name, "power") && !str_eq(name, "subsystem") && !str_eq(name, "firmware_node")
}

/// Whether a file of this name is read.
pub fn reads_file(name: &str) -> (r: bool)
    ensures
        r == !is_skipped_file(name@),
{
    !str_eq(name, "nvmem") && !str_eq(name, "key")
}

/// What a walk has found.
pub struct Walk {
    pub attrs: Map<Seq<char>, Seq<char>>,
    pub notes: Seq<NoteFacts>,
}

/// Where the character that byte `at` belongs to begins.
pub open spec fn char_start(b: Seq<u8>, at: int) -> int
    decreases at,
{
    if at <= 0 || !is_continuation_byte(b[at]) {
        at
    } else {
        char_start(b, at - 1)
    }
}

/// Where the character that is under way at byte `at` ends.
pub open spec fn char_end(b: Seq<u8>, at: int) -> int
    decreases b.len() - at,
{
    if at >= b.len() || !is_continuation_byte(b[at]) {
        at
    } else {
        char_end(b, at + 1)
    }
}

/// The first bytes of a value, as far as they are recorded: a longer one is
/// cut, and where that falls inside a character, the cut is in front of it.
pub open spec fn capped_bytes(b: Seq<u8>) -> Seq<u8> {
    let cap = ATTR_VALUE_CAP as int;
    if b.len() <= cap {
        b
    } else if valid_utf8(b.take(char_end(b, cap))) {
        b.take(char_start(b, cap))
    } else {
        b.take(cap)
    }
}

proof fn lemma_char_start(b: Seq<u8>, at: int)
    requires
        0 <= at < b.len(),
    ensures
        0 <= char_start(b, at) <= at,
        char_start(b, at) == 0 || !is_continuation_byte(b[char_start(b, at)]),
    decreases at,
{
    if at > 0 && is_continuation_byte(b[at]) {
        lemma_char_start(b, at - 1);
    }
}

proof fn lemma_char_end(b: Seq<u8>, at: int)
    requires
        0 <= at <= b.len(),
    ensures
        at <= char_end(b, at) <= b.len(),
        char_end(b, at) == b.len() || !is_continuation_byte(b[char_end(b, at)]),
    decreases b.len() - at,
{
    if at < b.len() && is_continuation_byte(b[at]) {
        lemma_char_end(b, at + 1);
    }
}

proof fn lemma_boundary(b: Seq<u8>, at: int)
    requires
        valid_utf8(b),
        0 <= at <= b.len(),
        at == 0 || at == b.len() || !is_continuation_byte(b[at]),
    ensures
        is_char_boundary(b, at),
        valid_utf8(b.take(at)),
        decode_utf8(b.take(at)).is_prefix_of(decode_utf8(b)),
{
    is_char_boundary_start_end_of_seq(b);
    if at < b.len() {
        is_char_boundary_iff_not_is_continuation_byte(b, at);
    }
    valid_utf8_split(b, at);
    decode_utf8_split(b, at);
    assert(b.take(at) =~= b.subrange(0, at));
}

/// A text is never skipped for its length: what is recorded of it is text,
/// fits, and is what the text begins with.
pub proof fn law_a_long_text_is_cut_between_characters(b: Seq<u8>)
    requires
        valid_utf8(b),
    ensures
        valid_utf8(capped_bytes(b)),
        capped_bytes(b).len() <= ATTR_VALUE_CAP,
        decode_utf8(capped_bytes(b)).is_prefix_of(decode_utf8(b)),
        b.len() <= ATTR_VALUE_CAP ==> capped_bytes(b) == b,
{
    let cap = ATTR_VALUE_CAP as int;
    if b.len() > cap {
        lemma_char_start(b, cap);
        lemma_char_end(b, cap);
        lemma_boundary(b, char_start(b, cap));
        lemma_boundary(b, char_end(b, cap));
    }
}

/// The bytes of a value that are recorded.
fn capped(bytes: Vec<u8>) -> (r: Vec<u8>)
    ensures
        r@ == capped_bytes(bytes@),
{
    if bytes.len() <= ATTR_VALUE_CAP {
        return bytes;
    }
    let mut start: usize = ATTR_VALUE_CAP;
    while start > 0 && 0x80 <= bytes[start] && bytes[start] <= 0xbf
        invariant
            start < bytes@.len(),
            start <= ATTR_VALUE_CAP,
            char_start(bytes@, start as int) == char_start(bytes@, ATTR_VALUE_CAP as int),
        decreases start,
    {
        start = start - 1;
    }
    let mut end: usize = ATTR_VALUE_CAP;
    while end < bytes.len() && 0x80 <= bytes[end] && bytes[end] <= 0xbf
        invariant
            end <= bytes@.len(),
            char_end(bytes@, end as int) == char_end(bytes@, ATTR_VALUE_CAP as int),
        decreases bytes@.len() - end,
    {
        end = end + 1;
    }
    let mut head = copy_bytes(&bytes);
    head.truncate(end);
    assert(head@ =~= bytes@.take(end as int));
    let cut: usize = match decode(head) {
        Some(_) => start,
        None => ATTR_VALUE_CAP,
    };
    let ghost whole = bytes@;
    let mut kept = bytes;
    kept.truncate(cut);
    assert(kept@ =~= whole.take(cut as int));
    kept
}

/// What a file adds to a walk: its value, or a note. Trees are sparse: a file
/// that is not there is no attribute, and its absence is not noted.
pub open spec fn file_walked(before: Walk, node: Node, rel: Seq<char>, base: Seq<char>) -> Walk {
    match node.content {
        Content::Absent => before,
        Content::Unreadable(e) => Walk { notes: before.notes.push(unread(joined(base, rel), e@)), ..before },
        _ => {
            let b = capped_bytes(file_bytes(node)->0);
            if valid_utf8(b) {
                Walk { attrs: before.attrs.insert(rel, trimmed(decode_utf8(b))), ..before }
            } else {
                Walk {
                    notes: before.notes.push(
                        (NoteFacts { item: joined(base, rel), reason: "not UTF-8, skipped"@ }),
                    ),
                    ..before
                }
            }
        },
    }
}

/// The path of an entry below the walk's start.
pub open spec fn rel_path(dir: Seq<char>, name: Seq<char>) -> Seq<char> {
    if dir.len() == 0 {
        name
    } else {
        joined(dir, name)
    }
}

/// What a directory adds to a walk that may go `left` levels deep. One that
/// could not be listed counts as empty.
pub open spec fn dir_walked(before: Walk, entries: Seq<Node>, dir: Seq<char>, base: Seq<char>, left: nat) -> Walk
    decreases left, 1nat, 0nat,
{
    if left == 0 {
        before
    } else {
        list_walked(before, in_order(entries), dir, base, left)
    }
}

/// What entries in order add to a walk.
pub open spec fn list_walked(before: Walk, nodes: Seq<Node>, dir: Seq<char>, base: Seq<char>, left: nat) -> Walk
    decreases left, 0nat, nodes.len(),
{
    if nodes.len() == 0 || left == 0 {
        before
    } else {
        let front = list_walked(before, nodes.drop_last(), dir, base, left);
        let node = nodes.last();
        let rel = rel_path(dir, node.name@);
        match node.link {
            Some(target) => match name_of(target@) {
                Some(name) => Walk { attrs: front.attrs.insert(rel, "-> "@ + name), ..front },
                None => front,
            },
            None => match node.content {
                Content::Directory(v) => if is_skipped_dir(node.name@) {
                    front
                } else {
                    dir_walked(front, v@, rel, base, (left - 1) as nat)
                },
                Content::Unlisted(_) => front,
                _ => if is_skipped_file(node.name@) {
                    front
                } else {
                    file_walked(front, node, rel, base)
                },
            },
        }
    }
}

/// A walk under way.
struct Walker {
    attrs: NameTable<String>,
    notes: Vec<Note>,
}

impl Walker {
    spec fn facts(self) -> Walk {
        Walk { attrs: texts(self.attrs@), notes: notes(self.notes@) }
    }

    fn set(&mut self, rel: String, value: String)
        ensures
            final(self).facts() == (Walk {
                attrs: old(self).facts().attrs.insert(rel@, value@),
                ..old(self).facts()
            }),
    {
        let ghost before = self.attrs@;
        let ghost (k, v) = (rel@, value@);
        self.attrs.insert(rel, value);
        assert(texts(self.attrs@) =~= texts(before).insert(k, v));
    }

    fn tell(&mut self, item: &str, reason: &str)
        ensures
            final(self).facts() == (Walk {
                notes: old(self).facts().notes.push((NoteFacts { item: item@, reason: reason@ })),
                ..old(self).facts()
            }),
    {
        let ghost before = notes(self.notes@);
        self.notes.push(note(item, reason));
        assert(notes(self.notes@) =~= before.push((NoteFacts { item: item@, reason: reason@ })));
    }

    fn file(&mut self, node: &Node, rel: &str, base: &str)
        requires
            !(node.content is Directory),
            !(node.content is Unlisted),
        ensures
            final(self).facts() == file_walked(old(self).facts(), *node, rel@, base@),
    {
        let path = from_chars(&join_path(&to_chars(base), &to_chars(rel)));
        let bytes = match &node.content {
            Content::Text(t) => encode(t.as_str()),
            Content::Bytes(b) => copy_bytes(b),
            Content::Absent => {
                return ;
            },
            Content::Unreadable(e) => {
                let mut text = to_chars("could not read: ");
                extend_str(&mut text, e.as_str());
                self.tell(path.as_str(), from_chars(&text).as_str());
                return ;
            },
            Content::Unlisted(_) => {
                return ;
            },
            Content::Directory(_) => {
                return ;
            },
        };
        match decode(capped(bytes)) {
            Some(text) => {
                let value = from_chars(&trim(&to_chars(text.as_str())));
                self.set(rel.to_owned(), value);
            },
            None => {
                self.tell(path.as_str(), "not UTF-8, skipped");
            },
        }
    }

    /// Walks a directory, and `below` levels of directories under it.
    fn walk_attrs(&mut self, entries: &Vec<Node>, dir: &str, base: &str, below: usize)
        ensures
            final(self).facts() == dir_walked(old(self).facts(), entries@, dir@, base@, (below + 1) as nat),
        decreases below,
    {
        let nodes = list(entries);
        let ghost all = nodes_of(nodes@);
        let ghost start = self.facts();
        let mut i: usize = 0;
        assert(all.take(0) =~= Seq::<Node>::empty());
        while i < nodes.len()
            invariant
                i <= nodes@.len(),
                all == nodes_of(nodes@),
                self.facts() == list_walked(start, all.take(i as int), dir@, base@, (below + 1) as nat),
            decreases nodes@.len() - i,
        {
            assert(all.take(i + 1).drop_last() =~= all.take(i as int));
            let node = nodes[i].node;
            assert(all[i as int] == *node);
            let rel = if dir.is_empty() {
                node.name.clone()
            } else {
                from_chars(&join_path(&to_chars(dir), &to_chars(node.name.as_str())))
            };
            assert(rel@ == rel_path(dir@, node.name@));
            match &node.link {
                Some(target) => {
                    if let Some(name) = last_name(&to_chars(target.as_str())) {
                        let mut v = to_chars("-> ");
                        extend(&mut v, &name);
                        self.set(rel, from_chars(&v));
                    }
                },
                None => {
                    match &node.content {
                        Content::Directory(children) => {
                            assert(dir_walked(self.facts(), children@, rel@, base@, 0) == self.facts());
                            if walks_into(node.name.as_str()) && below > 0 {
                                self.walk_attrs(children, rel.as_str(), base, below - 1);
                            }
                        },
                        Content::Unlisted(_) => {},
                        _ => {
                            if reads_file(node.name.as_str()) {
                                self.file(node, rel.as_str(), base);
                            }
                        },
                    }
                },
            }
            i = i + 1;
        }
        assert(all.take(all.len() as int) =~= all);
    }
}

/// Why an entry could not be resolved.
pub open spec fn resolve_failure(node: Node) -> Seq<char> {
    match node.content {
        Content::Unreadable(e) => e@,
        _ => "No such file or directory (os error 2)"@,
    }
}

/// The entries of a class or bus directory dumped so far.
pub struct Dumped {
    pub dumps: Seq<DumpFacts>,
    pub notes: Seq<NoteFacts>,
}

/// What one entry adds: its attributes to `left` levels, or a note when it
/// cannot be resolved.
pub open spec fn entry_dumped(before: Dumped, node: Node, root: Seq<char>, left: nat) -> Dumped {
    match node.canonical {
        None => Dumped {
            notes: before.notes.push(
                (NoteFacts {
                    item: joined(root, node.name@),
                    reason: "could not resolve: "@ + resolve_failure(node),
                }),
            ),
            ..before
        },
        Some(base) => {
            let walk = dir_walked(
                (Walk { attrs: Map::empty(), notes: before.notes }),
                node.children(),
                Seq::empty(),
                base@,
                left,
            );
            Dumped {
                dumps: before.dumps.push((DumpFacts { name: node.name@, attrs: walk.attrs })),
                notes: walk.notes,
            }
        },
    }
}

/// What several entries add.
pub open spec fn entries_dumped(nodes: Seq<Node>, root: Seq<char>, left: nat) -> Dumped
    decreases nodes.len(),
{
    if nodes.len() == 0 {
        Dumped { dumps: Seq::empty(), notes: Seq::empty() }
    } else {
        entry_dumped(entries_dumped(nodes.drop_last(), root, left), nodes.last(), root, left)
    }
}

/// What several dumps say.
pub open spec fn dump_facts(v: Seq<AttrDump>) -> Seq<DumpFacts> {
    v.map_values(|a: AttrDump| a@)
}

/// A directory's entries dumped, or a note that it could not be read.
pub open spec fn dumped(root: Seq<char>, tree: Result<&Vec<Node>, String>, max_depth: nat) -> Dumped {
    match tree {
        Err(e) => Dumped { dumps: Seq::empty(), notes: seq![unread(root, e@)] },
        Ok(entries) => entries_dumped(in_order(entries@), root, max_depth + 1),
    }
}

/// Every entry under `root` (a class or bus `devices` directory, whose
/// entries are symlinks into the device tree: those are followed) with its
/// attributes to `max_depth` levels below the entry. Inner links are recorded
/// with where they point and never followed. Values are trimmed and capped at
/// [`ATTR_VALUE_CAP`] bytes. A directory that could not be read is noted.
pub fn dump_attrs(root: &str, tree: Result<&Vec<Node>, String>, max_depth: usize) -> (r: (
    Vec<AttrDump>,
    Vec<Note>,
))
    ensures
        dump_facts(r.0@) == dumped(root@, tree, max_depth as nat).dumps,
        notes(r.1@) == dumped(root@, tree, max_depth as nat).notes,
{
    let mut said: Vec<Note> = Vec::new();
    let mut dumps: Vec<AttrDump> = Vec::new();
    let entries = match tree {
        Err(e) => {
            said.push(unread_note(root, "", e.as_str()));
            proof {
                reveal_strlit("");
                assert(root@ + ""@ =~= root@);
            }
            assert(notes(said@) =~= seq![unread(root@, e@)]);
            return (dumps, said);
        },
        Ok(entries) => entries,
    };
    let nodes = list(entries);
    let ghost all = nodes_of(nodes@);
    let ghost left = (max_depth + 1) as nat;
    let mut i: usize = 0;
    assert(all.take(0) =~= Seq::<Node>::empty());
    assert(dump_facts(dumps@) =~= Seq::<DumpFacts>::empty());
    assert(notes(said@) =~= Seq::<NoteFacts>::empty());
    while i < nodes.len()
        invariant
            i <= nodes@.len(),
            left == max_depth + 1,
            all == nodes_of(nodes@),
            dump_facts(dumps@) == entries_dumped(all.take(i as int), root@, left).dumps,
            notes(said@) == entries_dumped(all.take(i as int), root@, left).notes,
        decreases nodes@.len() - i,
    {
        assert(all.take(i + 1).drop_last() =~= all.take(i as int));
        let node = nodes[i].node;
        assert(all[i as int] == *node);
        let ghost before = dump_facts(dumps@);
        let ghost told = notes(said@);
        match &node.canonical {
            None => {
                let mut text = to_chars("could not resolve: ");
                match &node.content {
                    Content::Unreadable(e) => {
                        extend_str(&mut text, e.as_str());
                    },
                    _ => {
                        extend_str(&mut text, "No such file or directory (os error 2)");
                    },
                }
                let path = from_chars(&join_path(&to_chars(root), &to_chars(node.name.as_str())));
                let n = note(path.as_str(), from_chars(&text).as_str());
                let ghost facts = n@;
                said.push(n);
                assert(notes(said@) =~= told.push(facts));
            },
            Some(base) => {
                let mut walker = Walker { attrs: NameTable::new(), notes: said };
                assert(texts(walker.attrs@) =~= Map::<Seq<char>, Seq<char>>::empty());
                match &node.content {
                    Content::Directory(children) => {
                        walker.walk_attrs(children, "", base.as_str(), max_depth);
                        proof {
                            reveal_strlit("");
                            assert(""@ =~= Seq::<char>::empty());
                        }
                    },
                    _ => {
                        assert(in_order(node.children()) =~= Seq::<Node>::empty());
                    },
                }
                let Walker { attrs, notes: more } = walker;
                said = more;
                let dump = AttrDump { name: node.name.clone(), attrs };
                let ghost facts = dump@;
                dumps.push(dump);
                assert(dump_facts(dumps@) =~= before.push(facts));
            },
        }
        i = i + 1;
    }
    assert(all.take(all.len() as int) =~= all);
    (dumps, said)
}

} // verus!
