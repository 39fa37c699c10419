//! Capturing one ladder stage into a committed, hermetic fixture bundle.

pub mod laws;
pub mod meta;
pub mod root;
pub mod sanitize;
pub mod sysfs;
pub mod trace;

use vstd::prelude::*;
use vstd::utf8::{decode_utf8, valid_utf8};

use crate::capture::sysfs::{copy_bytes, materialize_sysfs, steps, sysfs_copied, FixtureStep, StepFacts};
use crate::capture::trace::{
    events_stripped, is_payload_free, law_a_sanitized_stream_is_payload_free, law_sanitized_text_carries_no_data_tag,
    lines_stripped, number_of, read_number, sanitize_binary_stream, sanitize_text_stream, ByteOrder,
};
use crate::fixture_replay::FixtureSource;
use crate::number::{decimal, parse_uint, read_uint, to_decimal};
use crate::path::{joined, last_name, name_of, parts, parts_of};
use crate::sysfs::{Content, Node};
use crate::text::{
    char_views, chars_eq, decode, encode, extend, extend_str, from_chars, slice, starts, starts_with, to_chars, words,
    words_of,
};

verus! {

/// One sanitized trace ready to be written into a bundle.
#[derive(Debug)]
pub struct CapturedTrace {
    pub source: FixtureSource,
    pub bytes: Vec<u8>,
    /// Kernel-side events lost during the capture, when the interface could
    /// report them (the binary device; `None` for the text file).
    pub kernel_dropped: Option<u64>,
}

/// Raw bytes read from one usbmon interface, plus the kernel's drop count
/// when the interface has one.
#[derive(Debug)]
pub struct RawCapture {
    pub bytes: Vec<u8>,
    /// The events that the kernel lost during this capture; `None` where the
    /// interface has no such counter.
    pub kernel_dropped: Option<u64>,
}

/// Where a bundle's `internal-devices.toml` comes from: a fresh bare-board
/// snapshot of a sysfs tree, or a copy of a baseline that was captured at the
/// bare-board stage and is passed to every later stage.
#[derive(Debug)]
pub enum BaselineSource {
    CaptureFrom(String),
    CopyFile(String),
}

/// What to capture.
#[derive(Debug)]
pub struct CaptureFixtureOpts {
    pub outdir: String,
    pub window_ms: u64,
    /// usbmon interface to read: `None` is the aggregate (bus 0), which
    /// carries every bus's events in one stream.
    pub bus: Option<u8>,
    /// Bare-board baseline to copy in; `None` captures a fresh one (bare-board
    /// stage only).
    pub baseline: Option<String>,
}

/// Why a trace is not free of payload.
#[derive(Debug, Clone, Copy, PartialEq, Eq, Structural)]
pub enum PayloadFault {
    /// The binary trace is not a whole number of headers.
    Cut { len: usize },
    /// A binary record claims payload bytes.
    Claims { record: usize, len_cap: u32 },
    /// The text trace is not UTF-8.
    NotUtf8,
    /// The text trace carries a `=` data tag.
    DataTag,
}

/// The payload length that record `i` of a binary trace claims.
pub open spec fn claimed_by(bytes: Seq<u8>, i: int, order: ByteOrder) -> nat {
    number_of(bytes.subrange(48 * i + 36, 48 * i + 40), order)
}

/// The first record from `i` on that claims payload.
pub open spec fn first_claim(bytes: Seq<u8>, i: int, order: ByteOrder) -> Option<int>
    decreases bytes.len() - 48 * i,
{
    if i < 0 || 48 * i + 48 > bytes.len() {
        None
    } else if claimed_by(bytes, i, order) != 0 {
        Some(i)
    } else {
        first_claim(bytes, i + 1, order)
    }
}

/// What keeps a trace from being free of payload.
pub open spec fn payload_fault(source: FixtureSource, bytes: Seq<u8>, order: ByteOrder) -> Option<PayloadFault> {
    match source {
        FixtureSource::Binary => if bytes.len() % 48 != 0 {
            Some(PayloadFault::Cut { len: bytes.len() as usize })
        } else {
            match first_claim(bytes, 0, order) {
                Some(i) => Some(
                    PayloadFault::Claims { record: i as usize, len_cap: claimed_by(bytes, i, order) as u32 },
                ),
                None => None,
            }
        },
        FixtureSource::Text => if !valid_utf8(bytes) {
            Some(PayloadFault::NotUtf8)
        } else if words_of(decode_utf8(bytes)).contains("="@) {
            Some(PayloadFault::DataTag)
        } else {
            None
        },
    }
}

impl PayloadFault {
    /// The sentence about a fault.
    pub open spec fn text(self) -> Seq<char> {
        match self {
            PayloadFault::Cut { len } => "SEC-1: binary trace is "@ + decimal(len as nat)
                + " bytes, not a multiple of 48 (payload leaked?)"@,
            PayloadFault::Claims { record, len_cap } => "SEC-1: binary trace record "@ + decimal(record as nat)
                + " carries len_cap="@ + decimal(len_cap as nat) + " (payload leaked?)"@,
            PayloadFault::NotUtf8 => "SEC-1: text trace is not UTF-8"@,
            PayloadFault::DataTag => "SEC-1: text trace carries a `=` data tag (payload leaked?)"@,
        }
    }

    /// The sentence about a fault.
    pub fn message(&self) -> (r: String)
        ensures
            r@ == self.text(),
    {
        let v = match *self {
            PayloadFault::Cut { len } => {
                let mut v = to_chars("SEC-1: binary trace is ");
                extend(&mut v, &to_decimal(len as u64));
                extend_str(&mut v, " bytes, not a multiple of 48 (payload leaked?)");
                v
            },
            PayloadFault::Claims { record, len_cap } => {
                let mut v = to_chars("SEC-1: binary trace record ");
                extend(&mut v, &to_decimal(record as u64));
                extend_str(&mut v, " carries len_cap=");
                extend(&mut v, &to_decimal(len_cap as u64));
                extend_str(&mut v, " (payload leaked?)");
                v
            },
            PayloadFault::NotUtf8 => to_chars("SEC-1: text trace is not UTF-8"),
            PayloadFault::DataTag => to_chars("SEC-1: text trace carries a `=` data tag (payload leaked?)"),
        };
        from_chars(&v)
    }
}

fn has_data_tag(text: &str) -> (r: bool)
    ensures
        r == words_of(text@).contains("="@),
{
    let tokens = words(&to_chars(text));
    let ghost views = char_views(tokens@);
    let tag = to_chars("=");
    let mut i: usize = 0;
    while i < tokens.len()
        invariant
            i <= tokens@.len(),
            views == char_views(tokens@),
            views == words_of(text@),
            tag@ == "="@,
            forall|j: int| 0 <= j < i ==> #[trigger] views[j] != "="@,
        decreases tokens@.len() - i,
    {
        assert(views[i as int] == tokens@[i as int]@);
        if chars_eq(&tokens[i], &tag) {
            assert(views[i as int] == "="@);
            return true;
        }
        i = i + 1;
    }
    false
}

/// A binary trace must be a whole number of 48-byte headers, each with
/// `len_cap` zero (no payload); a text trace must carry no `=` data tag. A
/// whole-header-count check alone is not enough: a header that claims 48
/// payload bytes, followed by exactly those, is itself a whole multiple of 48
/// and would slip past it, so every record's `len_cap` is checked too.
pub fn assert_payload_free(trace: &CapturedTrace, order: ByteOrder) -> (r: Result<(), PayloadFault>)
    ensures
        match payload_fault(trace.source, trace.bytes@, order) {
            Some(f) => r == Err::<(), PayloadFault>(f),
            None => r == Ok::<(), PayloadFault>(()),
        },
{
    match trace.source {
        FixtureSource::Binary => {
            let bytes = &trace.bytes;
            if bytes.len() % 48 != 0 {
                return Err(PayloadFault::Cut { len: bytes.len() });
            }
            let mut i: usize = 0;
            while i < bytes.len() / 48
                invariant
                    i <= bytes.len() / 48,
                    bytes.len() % 48 == 0,
                    bytes@ == trace.bytes@,
                    trace.source == FixtureSource::Binary,
                    first_claim(bytes@, 0, order) == first_claim(bytes@, i as int, order),
                decreases bytes.len() / 48 - i,
            {
                assert(48 * i + 48 <= bytes.len());
                let len_cap = read_number(bytes, 48 * i + 36, order);
                assert(len_cap == claimed_by(bytes@, i as int, order));
                if len_cap != 0 {
                    return Err(PayloadFault::Claims { record: i, len_cap });
                }
                i = i + 1;
            }
            Ok(())
        },
        FixtureSource::Text => {
            match decode(copy_bytes(&trace.bytes)) {
                None => Err(PayloadFault::NotUtf8),
                Some(text) => if has_data_tag(text.as_str()) {
                    Err(PayloadFault::DataTag)
                } else {
                    Ok(())
                },
            }
        },
    }
}

/// Why a materialized tree is not contained.
#[derive(Debug)]
pub enum ContainmentFault {
    /// An entry whose canonical path could not be had.
    Unresolved(String),
    /// An entry that leads out of the bundle.
    Escapes(String),
    /// A directory that could not be listed, and why.
    Unlisted(String),
}

/// What a `ContainmentFault` says.
pub enum EscapeFacts {
    Unresolved(Seq<char>),
    Escapes(Seq<char>),
    Unlisted(Seq<char>),
}

impl View for ContainmentFault {
    type V = EscapeFacts;

    open spec fn view(&self) -> EscapeFacts {
        match self {
            ContainmentFault::Unresolved(p) => EscapeFacts::Unresolved(p@),
            ContainmentFault::Escapes(p) => EscapeFacts::Escapes(p@),
            ContainmentFault::Unlisted(e) => EscapeFacts::Unlisted(e@),
        }
    }
}

impl ContainmentFault {
    /// The sentence about a fault.
    pub fn message(&self) -> (r: String)
        ensures
            r@ == (match self@ {
                EscapeFacts::Unresolved(p) => "canonicalize "@ + p,
                EscapeFacts::Escapes(p) => "SEC-2: "@ + p + " escapes the bundle"@,
                EscapeFacts::Unlisted(e) => e,
            }),
    {
        let v = match self {
            ContainmentFault::Unresolved(p) => {
                let mut v = to_chars("canonicalize ");
                extend_str(&mut v, p.as_str());
                v
            },
            ContainmentFault::Escapes(p) => {
                let mut v = to_chars("SEC-2: ");
                extend_str(&mut v, p.as_str());
                extend_str(&mut v, " escapes the bundle");
                v
            },
            ContainmentFault::Unlisted(e) => to_chars(e.as_str()),
        };
        from_chars(&v)
    }
}

/// Whether a path starts with all components of another.
pub open spec fn starts_with_path(path: Seq<char>, root: Seq<char>) -> bool {
    parts_of(root).is_prefix_of(parts_of(path))
}

/// What is wrong with one entry of the directory `dir`.
pub open spec fn entry_fault(node: Node, dir: Seq<char>, root: Seq<char>) -> Option<EscapeFacts> {
    match node.canonical {
        None => Some(EscapeFacts::Unresolved(joined(dir, node.name@))),
        Some(c) => if starts_with_path(c@, root) {
            None
        } else {
            Some(EscapeFacts::Escapes(joined(dir, node.name@)))
        },
    }
}

/// The first thing wrong among the entries of a directory themselves.
pub open spec fn first_fault(entries: Seq<Node>, dir: Seq<char>, root: Seq<char>) -> Option<EscapeFacts>
    decreases entries.len(),
{
    if entries.len() == 0 {
        None
    } else {
        match entry_fault(entries[0], dir, root) {
            Some(f) => Some(f),
            None => first_fault(entries.skip(1), dir, root),
        }
    }
}

/// The first thing wrong in a directory: among its entries, then below its
/// subdirectories, the last one first.
pub open spec fn escape_in(entries: Seq<Node>, dir: Seq<char>, root: Seq<char>) -> Option<EscapeFacts>
    decreases entries, 1int,
{
    match first_fault(entries, dir, root) {
        Some(f) => Some(f),
        None => escape_below(entries, root),
    }
}

/// The first thing wrong below the subdirectories of a directory, the last
/// one first.
pub open spec fn escape_below(entries: Seq<Node>, root: Seq<char>) -> Option<EscapeFacts>
    decreases entries, 0int,
{
    if entries.len() == 0 {
        None
    } else {
        let node = entries[entries.len() - 1];
        let here = match (node.canonical, node.content) {
            (Some(c), Content::Directory(v)) => escape_in(v@, c@, root),
            (Some(_), Content::Unlisted(e)) => Some(EscapeFacts::Unlisted(e@)),
            _ => None,
        };
        match here {
            Some(f) => Some(f),
            None => escape_below(entries.subrange(0, entries.len() - 1), root),
        }
    }
}

fn path_starts_with(path: &str, root: &str) -> (r: bool)
    ensures
        r == starts_with_path(path@, root@),
{
    let p = parts(&to_chars(path));
    let q = parts(&to_chars(root));
    let ghost (pv, qv) = (char_views(p@), char_views(q@));
    if q.len() > p.len() {
        return false;
    }
    let mut i: usize = 0;
    while i < q.len()
        invariant
            i <= q@.len() <= p@.len(),
            pv == char_views(p@),
            qv == char_views(q@),
            pv == parts_of(path@),
            qv == parts_of(root@),
            forall|j: int| 0 <= j < i ==> #[trigger] qv[j] == pv[j],
        decreases q@.len() - i,
    {
        assert(qv[i as int] == q@[i as int]@ && pv[i as int] == p@[i as int]@);
        if !chars_eq(&q[i], &p[i]) {
            assert(pv.subrange(0, qv.len() as int)[i as int] == pv[i as int]);
            return false;
        }
        i = i + 1;
    }
    assert(qv =~= pv.subrange(0, qv.len() as int));
    true
}

fn check_entries(entries: &Vec<Node>, dir: &str, root: &str) -> (r: Option<ContainmentFault>)
    ensures
        match r {
            Some(f) => first_fault(entries@, dir@, root@) == Some(f@),
            None => first_fault(entries@, dir@, root@) is None,
        },
{
    let mut i: usize = 0;
    assert(entries@.skip(0) =~= entries@);
    while i < entries.len()
        invariant
            i <= entries@.len(),
            first_fault(entries@, dir@, root@) == first_fault(entries@.skip(i as int), dir@, root@),
        decreases entries@.len() - i,
    {
        let node = &entries[i];
        assert(entries@.skip(i as int)[0] == *node);
        match &node.canonical {
            None => {
                return Some(ContainmentFault::Unresolved(entry_path(dir, node.name.as_str())));
            },
            Some(c) => {
                if !path_starts_with(c.as_str(), root) {
                    return Some(ContainmentFault::Escapes(entry_path(dir, node.name.as_str())));
                }
            },
        }
        assert(entries@.skip(i as int).skip(1) =~= entries@.skip(i + 1));
        i = i + 1;
    }
    None
}

fn entry_path(dir: &str, name: &str) -> (r: String)
    ensures
        r@ == joined(dir@, name@),
{
    let v = crate::path::join_path(&to_chars(dir), &to_chars(name));
    from_chars(&v)
}

fn check_tree(entries: &Vec<Node>, dir: &str, root: &str) -> (r: Option<ContainmentFault>)
    ensures
        match r {
            Some(f) => escape_in(entries@, dir@, root@) == Some(f@),
            None => escape_in(entries@, dir@, root@) is None,
        },
    decreases entries@,
{
    if let Some(f) = check_entries(entries, dir, root) {
        return Some(f);
    }
    let mut i: usize = entries.len();
    assert(entries@.subrange(0, entries@.len() as int) =~= entries@);
    while i > 0
        invariant
            i <= entries@.len(),
            escape_below(entries@, root@) == escape_below(entries@.subrange(0, i as int), root@),
            escape_in(entries@, dir@, root@) == escape_below(entries@, root@),
        decreases i,
    {
        let ghost front = entries@.subrange(0, i as int);
        let node = &entries[i - 1];
        assert(front[front.len() - 1] == *node);
        assert(front.subrange(0, front.len() - 1) =~= entries@.subrange(0, i - 1));
        if let (Some(c), Content::Directory(children)) = (&node.canonical, &node.content) {
            assert(decreases_to!(entries@ => entries@[i - 1]));
            if let Some(f) = check_tree(children, c.as_str(), root) {
                return Some(f);
            }
        }
        if let (Some(_), Content::Unlisted(e)) = (&node.canonical, &node.content) {
            return Some(ContainmentFault::Unlisted(e.clone()));
        }
        i = i - 1;
    }
    None
}

/// Every path under a materialized tree, canonicalized, must stay inside it.
pub fn assert_sysfs_contained(entries: &Vec<Node>, root: &str) -> (r: Result<(), ContainmentFault>)
    ensures
        match escape_in(entries@, root@, root@) {
            Some(f) => r matches Err(e) && e@ == f,
            None => r is Ok,
        },
{
    match check_tree(entries, root, root) {
        Some(f) => Err(f),
        None => Ok(()),
    }
}

/// Whether every entry, however deep, resolves to a path inside `root`.
pub open spec fn is_contained(entries: Seq<Node>, root: Seq<char>) -> bool
    decreases entries,
{
    forall|i: int|
        0 <= i < entries.len() ==> {
            &&& (#[trigger] entries[i]).canonical matches Some(c) && starts_with_path(c@, root)
            &&& entries[i].content matches Content::Directory(v) ==> is_contained(v@, root)
        }
}

proof fn lemma_no_first_fault(entries: Seq<Node>, dir: Seq<char>, root: Seq<char>)
    requires
        first_fault(entries, dir, root) is None,
    ensures
        forall|i: int| 0 <= i < entries.len() ==> entry_fault(#[trigger] entries[i], dir, root) is None,
    decreases entries.len(),
{
    if entries.len() > 0 {
        let t = entries.skip(1);
        lemma_no_first_fault(t, dir, root);
        assert forall|i: int| 0 <= i < entries.len() implies entry_fault(
            #[trigger] entries[i],
            dir,
            root,
        ) is None by {
            if i > 0 {
                assert(t[i - 1] == entries[i]);
            }
        }
    }
}

proof fn lemma_no_escape_below(entries: Seq<Node>, root: Seq<char>)
    requires
        escape_below(entries, root) is None,
        forall|i: int| 0 <= i < entries.len() ==> (#[trigger] entries[i]).canonical is Some,
    ensures
        forall|i: int|
            0 <= i < entries.len() ==> ((#[trigger] entries[i]).content matches Content::Directory(v)
                ==> is_contained(v@, root)),
    decreases entries, 0int,
{
    if entries.len() > 0 {
        let front = entries.subrange(0, entries.len() - 1);
        let node = entries[entries.len() - 1];
        if let Content::Directory(v) = node.content {
            law_a_checked_tree_is_contained(v@, node.canonical->0@, root);
        }
        assert forall|i: int| 0 <= i < front.len() implies (#[trigger] front[i]).canonical is Some by {
            assert(front[i] == entries[i]);
        }
        lemma_no_escape_below(front, root);
        assert forall|i: int| 0 <= i < entries.len() implies ((
        #[trigger] entries[i]).content matches Content::Directory(v) ==> is_contained(v@, root)) by {
            if i < front.len() {
                assert(front[i] == entries[i]);
            }
        }
    }
}

/// A tree in which nothing wrong is found holds nothing, however deep, that
/// leads out of it.
pub proof fn law_a_checked_tree_is_contained(entries: Seq<Node>, dir: Seq<char>, root: Seq<char>)
    requires
        escape_in(entries, dir, root) is None,
    ensures
        is_contained(entries, root),
    decreases entries, 1int,
{
    lemma_no_first_fault(entries, dir, root);
    assert forall|i: int| 0 <= i < entries.len() implies (#[trigger] entries[i]).canonical is Some by {
        assert(entry_fault(entries[i], dir, root) is None);
    }
    lemma_no_escape_below(entries, root);
    assert forall|i: int| 0 <= i < entries.len() implies {
        &&& (#[trigger] entries[i]).canonical matches Some(c) && starts_with_path(c@, root)
        &&& entries[i].content matches Content::Directory(v) ==> is_contained(v@, root)
    } by {
        assert(entry_fault(entries[i], dir, root) is None);
    }
}

/// The stage that an output directory names: `stage` and a number as its last
/// component.
pub open spec fn stage_named(outdir: Seq<char>) -> Option<nat> {
    match name_of(outdir) {
        Some(name) => if starts(name, "stage"@) {
            read_uint(name.skip(5), 10, u32::MAX as nat)
        } else {
            None
        },
        None => None,
    }
}

/// A trailing `stageN` component of the output directory as a stage id, for
/// `meta.toml`. Best-effort documentation only.
pub fn stage_id_from_outdir(outdir: &str) -> (r: Option<u32>)
    ensures
        match r {
            Some(n) => stage_named(outdir@) == Some(n as nat),
            None => stage_named(outdir@) is None,
        },
{
    proof {
        reveal_strlit("stage");
    }
    let name = match last_name(&to_chars(outdir)) {
        None => {
            return None;
        },
        Some(n) => n,
    };
    let prefix = to_chars("stage");
    if !starts_with(&name, &prefix) {
        return None;
    }
    let digits = slice(&name, 5, name.len());
    assert(digits@ =~= name@.skip(5));
    match parse_uint(&digits, 10, u32::MAX as u64) {
        Some(n) => Some(n as u32),
        None => None,
    }
}

/// The binary usbmon device of a bus.
pub open spec fn binary_path(bus: u8) -> Seq<char> {
    "/dev/usbmon"@ + decimal(bus as nat)
}

/// The text usbmon file of a bus.
pub open spec fn text_path(bus: u8) -> Seq<char> {
    "/sys/kernel/debug/usb/usbmon/"@ + decimal(bus as nat) + "u"@
}

/// The binary usbmon device of a bus.
pub fn binary_device(bus: u8) -> (r: String)
    ensures
        r@ == binary_path(bus),
{
    let mut v = to_chars("/dev/usbmon");
    extend(&mut v, &to_decimal(bus as u64));
    from_chars(&v)
}

/// The text usbmon file of a bus.
pub fn text_device(bus: u8) -> (r: String)
    ensures
        r@ == text_path(bus),
{
    let mut v = to_chars("/sys/kernel/debug/usb/usbmon/");
    extend(&mut v, &to_decimal(bus as u64));
    extend_str(&mut v, "u");
    from_chars(&v)
}

/// Where a live tree is read from.
pub open spec fn live_devices() -> Seq<char> {
    "/sys/bus/usb/devices"@
}

impl CaptureFixtureOpts {
    /// The bus to read; the aggregate when none was named.
    pub open spec fn read_bus(self) -> u8 {
        match self.bus {
            Some(b) => b,
            None => 0,
        }
    }

    /// Whether the baseline comes from where the options say.
    pub open spec fn names_baseline(self, from: BaselineSource) -> bool {
        match self.baseline {
            Some(p) => from matches BaselineSource::CopyFile(q) && q@ == p@,
            None => from matches BaselineSource::CaptureFrom(q) && q@ == live_devices(),
        }
    }

    /// The bus to read; the aggregate when none was named.
    pub fn bus(&self) -> (r: u8)
        ensures
            r == self.read_bus(),
    {
        match self.bus {
            Some(b) => b,
            None => 0,
        }
    }

    /// Where the baseline comes from.
    pub fn baseline_source(&self) -> (r: BaselineSource)
        ensures
            self.names_baseline(r),
    {
        match &self.baseline {
            Some(p) => BaselineSource::CopyFile(p.clone()),
            None => BaselineSource::CaptureFrom("/sys/bus/usb/devices".to_owned()),
        }
    }
}

/// Why a capture gave nothing to write.
#[derive(Debug, Clone, Copy, PartialEq, Eq, Structural)]
pub enum CaptureFault {
    /// The text interface gave bytes that are not UTF-8.
    TextNotUtf8,
    /// Neither interface could be read.
    NoInterface { bus: u8 },
}

impl CaptureFault {
    /// The sentence about a fault.
    pub fn message(&self) -> (r: String)
        ensures
            r@ == (match *self {
                CaptureFault::TextNotUtf8 => "stream did not contain valid UTF-8"@,
                CaptureFault::NoInterface { bus } => "no usbmon interface for bus "@ + decimal(bus as nat)
                    + " could be opened (need root and a loaded usbmon module)"@,
            }),
    {
        let v = match *self {
            CaptureFault::TextNotUtf8 => to_chars("stream did not contain valid UTF-8"),
            CaptureFault::NoInterface { bus } => {
                let mut v = to_chars("no usbmon interface for bus ");
                extend(&mut v, &to_decimal(bus as u64));
                extend_str(&mut v, " could be opened (need root and a loaded usbmon module)");
                v
            },
        };
        from_chars(&v)
    }
}

/// What is said of events that the kernel dropped.
pub open spec fn drop_warning(dropped: nat, device: Seq<char>) -> Seq<char> {
    "warning: the kernel dropped "@ + decimal(dropped) + " events from "@ + device
        + " during the capture; the binary golden still pins the pipeline but understates the traffic, so lower the rate or widen the window before citing it for accuracy"@
}

/// What is said of an interface that could not be captured.
pub open spec fn open_warning(device: Seq<char>, interface: Seq<char>, error: Seq<char>) -> Seq<char> {
    "warning: could not capture "@ + device + " ("@ + interface + " usbmon interface): "@ + error
}

/// What several traces say: the source, the bytes and the drop count.
pub open spec fn trace_facts(v: Seq<CapturedTrace>) -> Seq<(FixtureSource, Seq<u8>, Option<u64>)> {
    v.map_values(|t: CapturedTrace| (t.source, t.bytes@, t.kernel_dropped))
}

/// What a capture window came to: what is to be told, and the traces or why
/// there are none.
#[derive(Debug)]
pub struct WindowOutcome {
    pub warnings: Vec<String>,
    pub traces: Result<Vec<CapturedTrace>, CaptureFault>,
}

/// The warnings about the binary interface.
pub open spec fn binary_warnings(bus: u8, captured: Result<RawCapture, String>) -> Seq<Seq<char>> {
    match captured {
        Ok(raw) => match raw.kernel_dropped {
            Some(n) => if n > 0 {
                seq![drop_warning(n as nat, binary_path(bus))]
            } else {
                Seq::empty()
            },
            None => Seq::empty(),
        },
        Err(e) => seq![open_warning(binary_path(bus), "binary"@, e@)],
    }
}

/// The warnings about the text interface.
pub open spec fn text_warnings(bus: u8, captured: Result<RawCapture, String>) -> Seq<Seq<char>> {
    match captured {
        Ok(_) => Seq::empty(),
        Err(e) => seq![open_warning(text_path(bus), "text"@, e@)],
    }
}

/// The sanitized traces of a window.
pub open spec fn window_traces(
    binary: Result<RawCapture, String>,
    text: Result<RawCapture, String>,
    order: ByteOrder,
) -> Seq<(FixtureSource, Seq<u8>, Option<u64>)> {
    (match binary {
        Ok(raw) => seq![(FixtureSource::Binary, events_stripped(raw.bytes@, order), raw.kernel_dropped)],
        Err(_) => Seq::empty(),
    }) + (match text {
        Ok(raw) => seq![
            (
                FixtureSource::Text,
                vstd::utf8::encode_utf8(lines_stripped(decode_utf8(raw.bytes@))),
                raw.kernel_dropped,
            ),
        ],
        Err(_) => Seq::empty(),
    })
}

/// Sanitizes what the two interfaces of a bus gave over one shared window.
/// One of them is enough; an interface that gave nothing is warned about.
pub fn sanitize_window(
    bus: u8,
    binary: Result<RawCapture, String>,
    text: Result<RawCapture, String>,
    order: ByteOrder,
) -> (r: WindowOutcome)
    ensures
        ({
            let unreadable = text matches Ok(raw) && !valid_utf8(raw.bytes@);
            &&& crate::text::string_views(r.warnings@) == binary_warnings(bus, binary) + text_warnings(bus, text)
            &&& unreadable ==> r.traces == Err::<Vec<CapturedTrace>, CaptureFault>(CaptureFault::TextNotUtf8)
            &&& !unreadable && binary is Err && text is Err ==> r.traces == Err::<Vec<CapturedTrace>, CaptureFault>(
                CaptureFault::NoInterface { bus },
            )
            &&& !unreadable && (binary is Ok || text is Ok) ==> (r.traces matches Ok(v) && trace_facts(v@)
                == window_traces(binary, text, order))
        }),
{
    let mut warnings: Vec<String> = Vec::new();
    let mut traces: Vec<CapturedTrace> = Vec::new();
    let ghost given_binary = binary;
    let ghost given_text = text;
    match binary {
        Ok(raw) => {
            if let Some(n) = raw.kernel_dropped {
                if n > 0 {
                    let mut v = to_chars("warning: the kernel dropped ");
                    extend(&mut v, &to_decimal(n));
                    extend_str(&mut v, " events from ");
                    extend_str(&mut v, binary_device(bus).as_str());
                    extend_str(
                        &mut v,
                        " during the capture; the binary golden still pins the pipeline but understates the traffic, so lower the rate or widen the window before citing it for accuracy",
                    );
                    warnings.push(from_chars(&v));
                }
            }
            traces.push(
                CapturedTrace {
                    source: FixtureSource::Binary,
                    bytes: sanitize_binary_stream(&raw.bytes, order),
                    kernel_dropped: raw.kernel_dropped,
                },
            );
        },
        Err(e) => {
            warnings.push(could_not_capture(binary_device(bus).as_str(), "binary", e.as_str()));
        },
    }
    assert(crate::text::string_views(warnings@) =~= binary_warnings(bus, given_binary));
    let ghost said = crate::text::string_views(warnings@);
    match text {
        Ok(raw) => {
            assert(said + text_warnings(bus, given_text) =~= said);
            let kernel_dropped = raw.kernel_dropped;
            match sanitize_text_stream(raw.bytes) {
                Ok(clean) => {
                    traces.push(
                        CapturedTrace {
                            source: FixtureSource::Text,
                            bytes: encode(clean.as_str()),
                            kernel_dropped,
                        },
                    );
                },
                Err(_) => {
                    return WindowOutcome { warnings, traces: Err(CaptureFault::TextNotUtf8) };
                },
            }
        },
        Err(e) => {
            warnings.push(could_not_capture(text_device(bus).as_str(), "text", e.as_str()));
            assert(crate::text::string_views(warnings@) =~= said + text_warnings(bus, given_text));
        },
    }
    if traces.len() == 0 {
        return WindowOutcome { warnings, traces: Err(CaptureFault::NoInterface { bus }) };
    }
    assert(trace_facts(traces@) =~= window_traces(given_binary, given_text, order));
    WindowOutcome { warnings, traces: Ok(traces) }
}

fn could_not_capture(device: &str, interface: &str, error: &str) -> (r: String)
    ensures
        r@ == open_warning(device@, interface@, error@),
{
    let mut v = to_chars("warning: could not capture ");
    extend_str(&mut v, device);
    extend_str(&mut v, " (");
    extend_str(&mut v, interface);
    extend_str(&mut v, " usbmon interface): ");
    extend_str(&mut v, error);
    from_chars(&v)
}

proof fn lemma_no_claim(bytes: Seq<u8>, i: int, order: ByteOrder)
    requires
        0 <= i,
        is_payload_free(bytes),
    ensures
        first_claim(bytes, i, order) is None,
    decreases bytes.len() - 48 * i,
{
    if 48 * i + 48 <= bytes.len() {
        assert(!crate::capture::trace::claims_payload(bytes, i));
        assert(claimed_by(bytes, i, order) == 0);
        lemma_no_claim(bytes, i + 1, order);
    }
}

/// What a window gives passes the payload check, whatever was read.
pub proof fn law_a_window_is_payload_free(
    binary: Result<RawCapture, String>,
    text: Result<RawCapture, String>,
    order: ByteOrder,
)
    ensures
        ({
            let traces = window_traces(binary, text, order);
            forall|i: int|
                0 <= i < traces.len() ==> payload_fault((#[trigger] traces[i]).0, traces[i].1, order) is None
        }),
{
    let traces = window_traces(binary, text, order);
    assert forall|i: int| 0 <= i < traces.len() implies payload_fault(
        (#[trigger] traces[i]).0,
        traces[i].1,
        order,
    ) is None by {
        if traces[i].0 == FixtureSource::Binary {
            let raw = binary->Ok_0.bytes@;
            law_a_sanitized_stream_is_payload_free(raw, order);
            lemma_no_claim(events_stripped(raw, order), 0, order);
        } else {
            let clean = lines_stripped(decode_utf8(text->Ok_0.bytes@));
            law_sanitized_text_carries_no_data_tag(decode_utf8(text->Ok_0.bytes@));
            vstd::utf8::encode_utf8_valid_utf8(clean);
            vstd::utf8::encode_utf8_decode_utf8(clean);
        }
    }
}

/// One step of writing a bundle.
#[derive(Debug)]
pub enum BundleStep {
    /// Make one thing of the copied tree.
    Make(FixtureStep),
    /// Check that the copied tree stays inside the bundle.
    CheckContained,
    /// Write the baseline snapshot.
    WriteBaseline,
    /// Write the trace with this index.
    WriteTrace(usize),
    /// Replay the bundle for a source and write its golden.
    WriteGolden(FixtureSource),
    /// Write `meta.toml` from the first golden's report; from a replay
    /// without a source when there is no golden.
    WriteMeta { sources: Vec<FixtureSource>, binary_kernel_dropped: Option<u64> },
}

/// What a `BundleStep` says.
pub enum BundleFacts {
    Make(StepFacts),
    CheckContained,
    WriteBaseline,
    WriteTrace(usize),
    WriteGolden(FixtureSource),
    WriteMeta { sources: Seq<FixtureSource>, binary_kernel_dropped: Option<u64> },
}

impl View for BundleStep {
    type V = BundleFacts;

    open spec fn view(&self) -> BundleFacts {
        match self {
            BundleStep::Make(s) => BundleFacts::Make(s@),
            BundleStep::CheckContained => BundleFacts::CheckContained,
            BundleStep::WriteBaseline => BundleFacts::WriteBaseline,
            BundleStep::WriteTrace(i) => BundleFacts::WriteTrace(*i),
            BundleStep::WriteGolden(s) => BundleFacts::WriteGolden(*s),
            BundleStep::WriteMeta { sources, binary_kernel_dropped } => BundleFacts::WriteMeta {
                sources: sources@,
                binary_kernel_dropped: *binary_kernel_dropped,
            },
        }
    }
}

/// Why a bundle stops half-way.
#[derive(Debug, Clone, Copy, PartialEq, Eq, Structural)]
pub enum BundleFault {
    /// The tree's directory is there and holds something: copying into it
    /// would mix two captures into one bundle.
    Stale,
    /// A trace is not free of payload.
    Payload(PayloadFault),
}

impl BundleFault {
    /// The sentence about a fault; `sysfs_dir` is the tree's directory.
    pub fn message(&self, sysfs_dir: &str) -> (r: String)
        ensures
            r@ == (match *self {
                BundleFault::Stale => sysfs_dir@
                    + " already exists and is not empty (stale from a prior run?); use a fresh outdir"@,
                BundleFault::Payload(f) => f.text(),
            }),
    {
        match *self {
            BundleFault::Stale => {
                let mut v = to_chars(sysfs_dir);
                extend_str(&mut v, " already exists and is not empty (stale from a prior run?); use a fresh outdir");
                from_chars(&v)
            },
            BundleFault::Payload(f) => f.message(),
        }
    }
}

/// The steps that copy the tree.
pub open spec fn tree_steps(entries: Seq<Node>) -> Seq<BundleFacts> {
    sysfs_copied(entries, "sysfs"@).map_values(|s: StepFacts| BundleFacts::Make(s))
}

/// The steps up to the traces.
pub open spec fn opening_steps(entries: Seq<Node>) -> Seq<BundleFacts> {
    tree_steps(entries).push(BundleFacts::CheckContained).push(BundleFacts::WriteBaseline)
}

/// The first of the traces that is not free of payload.
pub open spec fn first_leak(traces: Seq<CapturedTrace>, order: ByteOrder) -> nat
    decreases traces.len(),
{
    if traces.len() == 0 || payload_fault(traces[0].source, traces[0].bytes@, order) is Some {
        0
    } else {
        1 + first_leak(traces.skip(1), order)
    }
}

/// The steps that write the first `n` traces.
pub open spec fn trace_steps(n: nat) -> Seq<BundleFacts> {
    Seq::new(n, |i: int| BundleFacts::WriteTrace(i as usize))
}

/// The sources of the traces.
pub open spec fn trace_sources(traces: Seq<CapturedTrace>) -> Seq<FixtureSource> {
    traces.map_values(|t: CapturedTrace| t.source)
}

/// The drop count of the first binary trace.
pub open spec fn binary_dropped(traces: Seq<CapturedTrace>) -> Option<u64>
    decreases traces.len(),
{
    if traces.len() == 0 {
        None
    } else if traces[0].source == FixtureSource::Binary {
        traces[0].kernel_dropped
    } else {
        binary_dropped(traces.skip(1))
    }
}

/// The steps after the traces: a golden for each source, then `meta.toml`.
pub open spec fn closing_steps(traces: Seq<CapturedTrace>) -> Seq<BundleFacts> {
    trace_sources(traces).map_values(|s: FixtureSource| BundleFacts::WriteGolden(s)).push(
        (BundleFacts::WriteMeta {
            sources: trace_sources(traces),
            binary_kernel_dropped: binary_dropped(traces),
        }),
    )
}

/// The steps that write a bundle, and why they end early.
pub open spec fn bundle_plan(
    stale: bool,
    entries: Seq<Node>,
    traces: Seq<CapturedTrace>,
    order: ByteOrder,
) -> (Seq<BundleFacts>, Option<BundleFault>) {
    let k = first_leak(traces, order);
    if stale {
        (Seq::empty(), Some(BundleFault::Stale))
    } else if k < traces.len() {
        (
            opening_steps(entries) + trace_steps(k),
            Some(
                BundleFault::Payload(
                    payload_fault(traces[k as int].source, traces[k as int].bytes@, order)->0,
                ),
            ),
        )
    } else {
        (opening_steps(entries) + trace_steps(traces.len()) + closing_steps(traces), None)
    }
}

/// What several steps say.
pub open spec fn bundle_facts(v: Seq<BundleStep>) -> Seq<BundleFacts> {
    v.map_values(|s: BundleStep| s@)
}

proof fn lemma_first_leak_is(traces: Seq<CapturedTrace>, order: ByteOrder, k: int)
    requires
        0 <= k <= traces.len(),
        forall|j: int|
            0 <= j < k ==> payload_fault((#[trigger] traces[j]).source, traces[j].bytes@, order) is None,
        k < traces.len() ==> payload_fault(traces[k].source, traces[k].bytes@, order) is Some,
    ensures
        first_leak(traces, order) == k,
    decreases traces.len(),
{
    if k > 0 {
        let t = traces.skip(1);
        assert(payload_fault(traces[0].source, traces[0].bytes@, order) is None);
        assert forall|j: int| 0 <= j < k - 1 implies payload_fault(
            (#[trigger] t[j]).source,
            t[j].bytes@,
            order,
        ) is None by {
            assert(t[j] == traces[j + 1]);
        }
        lemma_first_leak_is(t, order, k - 1);
    }
}

/// The steps that write a bundle from a source tree and already sanitized
/// traces: copy the tree, check it, resolve the baseline, write the traces
/// (each checked for payload first), generate each golden by replaying the
/// bundle, and write `meta.toml`. No trace at all is a static bundle, from the
/// tree alone. A tree's directory that already holds something is refused.
/// Steps before a fault still stand.
pub fn assemble_bundle(
    stale: bool,
    entries: &Vec<Node>,
    traces: &Vec<CapturedTrace>,
    order: ByteOrder,
) -> (r: (Vec<BundleStep>, Option<BundleFault>))
    ensures
        (bundle_facts(r.0@), r.1) == bundle_plan(stale, entries@, traces@, order),
{
    let mut out: Vec<BundleStep> = Vec::new();
    if stale {
        assert(bundle_facts(out@) =~= Seq::<BundleFacts>::empty());
        return (out, Some(BundleFault::Stale));
    }
    let mut made = materialize_sysfs(entries, "sysfs");
    let ghost all = steps(made@);
    let ghost tree = tree_steps(entries@);
    let mut reversed: Vec<FixtureStep> = Vec::new();
    while made.len() > 0
        invariant
            made@.len() + reversed@.len() == all.len(),
            steps(made@) == all.take(made@.len() as int),
            forall|i: int| 0 <= i < reversed@.len() ==> (#[trigger] reversed@[i])@ == all[all.len() - 1 - i],
        decreases made@.len(),
    {
        let ghost n = made@.len() as int;
        let ghost before = made@;
        if let Some(step) = made.pop() {
            assert(step@ == steps(before)[n - 1]);
            reversed.push(step);
            assert(steps(made@) =~= all.take(n - 1));
        }
    }
    assert(bundle_facts(out@) =~= tree.take(0));
    while reversed.len() > 0
        invariant
            out@.len() + reversed@.len() == all.len(),
            tree == tree_steps(entries@),
            all == sysfs_copied(entries@, "sysfs"@),
            forall|i: int| 0 <= i < reversed@.len() ==> (#[trigger] reversed@[i])@ == all[all.len() - 1 - i],
            bundle_facts(out@) == tree.take(out@.len() as int),
        decreases reversed@.len(),
    {
        let ghost k = out@.len() as int;
        let ghost n = reversed@.len() as int;
        assert(reversed@[n - 1]@ == all[k]);
        if let Some(step) = reversed.pop() {
            let ghost before = bundle_facts(out@);
            out.push(BundleStep::Make(step));
            assert(bundle_facts(out@) =~= before.push(tree[k]));
            assert(tree.take(k + 1) =~= tree.take(k).push(tree[k]));
        }
    }
    assert(tree.take(tree.len() as int) =~= tree);
    out.push(BundleStep::CheckContained);
    out.push(BundleStep::WriteBaseline);
    assert(bundle_facts(out@) =~= opening_steps(entries@));
    let ghost opening = opening_steps(entries@);
    let mut sources: Vec<FixtureSource> = Vec::new();
    let mut i: usize = 0;
    assert(opening + trace_steps(0) =~= opening);
    while i < traces.len()
        invariant
            i <= traces@.len(),
            opening == opening_steps(entries@),
            bundle_facts(out@) == opening + trace_steps(i as nat),
            sources@ == trace_sources(traces@).take(i as int),
            !stale,
            forall|j: int|
                0 <= j < i ==> payload_fault((#[trigger] traces@[j]).source, traces@[j].bytes@, order) is None,
        decreases traces@.len() - i,
    {
        if let Err(f) = assert_payload_free(&traces[i], order) {
            proof {
                lemma_first_leak_is(traces@, order, i as int);
            }
            return (out, Some(BundleFault::Payload(f)));
        }
        let ghost before = bundle_facts(out@);
        out.push(BundleStep::WriteTrace(i));
        assert(bundle_facts(out@) =~= before.push(BundleFacts::WriteTrace(i)));
        assert(before.push(BundleFacts::WriteTrace(i)) =~= opening + trace_steps((i + 1) as nat));
        sources.push(traces[i].source);
        assert(sources@ =~= trace_sources(traces@).take(i + 1));
        i = i + 1;
    }
    proof {
        lemma_first_leak_is(traces@, order, i as int);
        assert(trace_sources(traces@).take(traces@.len() as int) =~= trace_sources(traces@));
    }
    let ghost middle = bundle_facts(out@);
    let ghost goldens = sources@.map_values(|s: FixtureSource| BundleFacts::WriteGolden(s));
    let mut k: usize = 0;
    assert(middle + goldens.take(0) =~= middle);
    while k < sources.len()
        invariant
            k <= sources@.len(),
            goldens == sources@.map_values(|s: FixtureSource| BundleFacts::WriteGolden(s)),
            bundle_facts(out@) == middle + goldens.take(k as int),
        decreases sources@.len() - k,
    {
        let ghost before = bundle_facts(out@);
        out.push(BundleStep::WriteGolden(sources[k]));
        assert(bundle_facts(out@) =~= before.push(goldens[k as int]));
        assert(goldens.take(k + 1) =~= goldens.take(k as int).push(goldens[k as int]));
        k = k + 1;
    }
    assert(goldens.take(goldens.len() as int) =~= goldens);
    let mut dropped: Option<u64> = None;
    let mut d: usize = 0;
    assert(traces@.skip(0) =~= traces@);
    while d < traces.len()
        invariant_except_break
            dropped is None,
            binary_dropped(traces@) == binary_dropped(traces@.skip(d as int)),
        invariant
            d <= traces@.len(),
        ensures
            dropped == binary_dropped(traces@),
        decreases traces@.len() - d,
    {
        assert(traces@.skip(d as int)[0] == traces@[d as int]);
        if traces[d].source == FixtureSource::Binary {
            dropped = traces[d].kernel_dropped;
            break ;
        }
        assert(traces@.skip(d as int).skip(1) =~= traces@.skip(d + 1));
        d = d + 1;
    }
    let ghost before = bundle_facts(out@);
    let meta = BundleStep::WriteMeta { sources, binary_kernel_dropped: dropped };
    let ghost facts = meta@;
    out.push(meta);
    assert(bundle_facts(out@) =~= before.push(facts));
    assert(before.push(facts) =~= middle + closing_steps(traces@));
    (out, None)
}

/// A capture run once both interfaces were read: what is to be told, and the
/// traces with the steps that write them, or why there is nothing to write.
#[derive(Debug)]
pub struct CaptureRun {
    pub warnings: Vec<String>,
    pub outcome: Result<CapturePlan, CaptureFault>,
}

/// What a capture run writes.
#[derive(Debug)]
pub struct CapturePlan {
    pub traces: Vec<CapturedTrace>,
    pub baseline: BaselineSource,
    pub stage_id: Option<u32>,
    pub steps: Vec<BundleStep>,
    /// Why the steps end early.
    pub fault: Option<BundleFault>,
    /// What is told once every step is done.
    pub done: String,
}

/// What a capture run does with what the two interfaces gave over one shared
/// window: sanitizes it, warns, and plans the bundle in the output directory
/// from the device tree `entries`.
pub fn run_capture_fixture(
    opts: &CaptureFixtureOpts,
    binary: Result<RawCapture, String>,
    text: Result<RawCapture, String>,
    stale: bool,
    entries: &Vec<Node>,
    order: ByteOrder,
) -> (r: CaptureRun)
    ensures
        ({
            let bus = opts.read_bus();
            let unreadable = text matches Ok(raw) && !valid_utf8(raw.bytes@);
            &&& crate::text::string_views(r.warnings@) == binary_warnings(bus, binary) + text_warnings(bus, text)
            &&& match r.outcome {
                Err(CaptureFault::TextNotUtf8) => unreadable,
                Err(CaptureFault::NoInterface { bus: named }) => !unreadable && binary is Err && text is Err && named
                    == bus,
                Ok(plan) => {
                    &&& !unreadable && (binary is Ok || text is Ok)
                    &&& trace_facts(plan.traces@) == window_traces(binary, text, order)
                    &&& opts.names_baseline(plan.baseline)
                    &&& match plan.stage_id {
                        Some(n) => stage_named(opts.outdir@) == Some(n as nat),
                        None => stage_named(opts.outdir@) is None,
                    }
                    &&& (bundle_facts(plan.steps@), plan.fault) == bundle_plan(
                        stale,
                        entries@,
                        plan.traces@,
                        order,
                    )
                    &&& plan.done@ == "captured fixture bundle at "@ + opts.outdir@
                },
            }
        }),
{
    let WindowOutcome { warnings, traces } = sanitize_window(opts.bus(), binary, text, order);
    match traces {
        Err(fault) => CaptureRun { warnings, outcome: Err(fault) },
        Ok(traces) => {
            let (steps, fault) = assemble_bundle(stale, entries, &traces, order);
            let mut done = to_chars("captured fixture bundle at ");
            extend_str(&mut done, opts.outdir.as_str());
            let plan = CapturePlan {
                traces,
                baseline: opts.baseline_source(),
                stage_id: stage_id_from_outdir(opts.outdir.as_str()),
                steps,
                fault,
                done: from_chars(&done),
            };
            CaptureRun { warnings, outcome: Ok(plan) }
        },
    }
}

/// A capture into a fresh directory never stops half-way: what was sanitized
/// passes every check of the bundle.
pub proof fn law_a_fresh_capture_is_written_whole(
    binary: Result<RawCapture, String>,
    text: Result<RawCapture, String>,
    entries: Seq<Node>,
    traces: Seq<CapturedTrace>,
    order: ByteOrder,
)
    requires
        trace_facts(traces) == window_traces(binary, text, order),
    ensures
        bundle_plan(false, entries, traces, order).1 is None,
{
    law_a_window_is_payload_free(binary, text, order);
    assert(traces.len() == trace_facts(traces).len());
    assert forall|j: int| 0 <= j < traces.len() implies payload_fault(
        (#[trigger] traces[j]).source,
        traces[j].bytes@,
        order,
    ) is None by {
        assert(trace_facts(traces)[j] == (traces[j].source, traces[j].bytes@, traces[j].kernel_dropped));
    }
    lemma_first_leak_is(traces, order, traces.len() as int);
}

} // verus!
