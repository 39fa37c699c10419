//! The bundle on disk: `usbtop-ng-support-<UTC stamp>/`, every file passed
//! through the redactor and recorded with its size, the manifest that lists
//! them all with the redaction counts and unavailable notes, and the archive
//! beside the directory.

use vstd::prelude::*;
use vstd::utf8::encode_utf8;

use crate::capture::sysfs::copy_bytes;
use crate::capture::trace::ByteOrder;
use crate::capture::{
    assert_payload_free, assert_sysfs_contained, escape_in, payload_fault, CapturedTrace, ContainmentFault,
    EscapeFacts, PayloadFault,
};
use crate::diag::redact::{rule_counts, Redactor};
use crate::diag::{note, Note, NoteFacts};
use crate::fixture_replay::FixtureSource;
use crate::order::{
    chars_lt, lemma_lex_total, lemma_lex_transitive, lemma_sorted_mapped, lex_le, rank, sort, sorted_by, Ranked,
};
use crate::path::{holding_text, join_path, joined, last_name, name_of, parent_text};
use crate::sysfs::Node;
use crate::text::{
    decode_lossy, encode, extend, extend_str, from_chars, lossy_text, str_eq, to_chars, trim, trimmed,
};

pub use crate::diag::utc::{utc_iso, utc_stamp};

verus! {

/// The manifest's `format_version`; bump when a file's layout changes.
pub const FORMAT_VERSION: u32 = 1;

/// One file of a bundle.
#[derive(Debug)]
pub struct FileEntry {
    pub path: String,
    pub bytes: u64,
    pub symlink: bool,
}

/// What a `FileEntry` says.
pub struct FileFacts {
    pub path: Seq<char>,
    pub bytes: u64,
    pub symlink: bool,
}

impl View for FileEntry {
    type V = FileFacts;

    open spec fn view(&self) -> FileFacts {
        FileFacts { path: self.path@, bytes: self.bytes, symlink: self.symlink }
    }
}

/// What several entries say.
pub open spec fn file_facts(v: Seq<FileEntry>) -> Seq<FileFacts> {
    v.map_values(|f: FileEntry| f@)
}

/// Entries stand by path.
pub open spec fn by_path() -> spec_fn(FileFacts, FileFacts) -> bool {
    |a: FileFacts, b: FileFacts| lex_le(a.path, b.path)
}

impl Ranked for FileEntry {
    open spec fn le(self, other: Self) -> bool {
        lex_le(self.path@, other.path@)
    }

    fn is_le(&self, other: &Self) -> (r: bool) {
        if str_eq(self.path.as_str(), other.path.as_str()) {
            return true;
        }
        chars_lt(&to_chars(self.path.as_str()), &to_chars(other.path.as_str()))
    }

    proof fn le_total(a: Self, b: Self) {
        lemma_lex_total(a.path@, b.path@);
    }

    proof fn le_transitive(a: Self, b: Self, c: Self) {
        if a.path@ != b.path@ && b.path@ != c.path@ {
            lemma_lex_transitive(a.path@, b.path@, c.path@);
        }
    }
}

/// What a bundle holds.
#[derive(Debug)]
pub struct Manifest {
    pub format_version: u32,
    pub created_unix: u64,
    pub created_utc: String,
    pub usbtop_ng: String,
    /// Each redaction rule that fired and how often, by rule name.
    pub redaction: Vec<(String, usize)>,
    pub unavailable: Vec<Note>,
    /// Every file in the bundle except this manifest, with its size.
    pub files: Vec<FileEntry>,
}

/// A file to be written: its name in the bundle, where, and its bytes.
#[derive(Debug)]
pub struct FileWrite {
    pub rel: String,
    pub path: String,
    pub bytes: Vec<u8>,
}

/// Prepares the files of a bundle directory, redacting text on the way, and
/// keeps the record of every file written for the manifest.
#[derive(Debug)]
pub struct BundleWriter {
    pub root: String,
    pub redactor: Redactor,
    pub files: Vec<FileEntry>,
}

/// A directory entry with its size.
#[derive(Debug)]
pub struct SizedNode {
    pub name: String,
    pub kind: SizedKind,
}

/// What a directory entry is.
#[derive(Debug)]
pub enum SizedKind {
    File(u64),
    Symlink,
    Directory(Vec<SizedNode>),
}

/// The files and symlinks of a directory itself, in listing order.
pub open spec fn plain_entries(entries: Seq<SizedNode>, rel: Seq<char>) -> Seq<FileFacts>
    decreases entries.len(),
{
    if entries.len() == 0 {
        Seq::empty()
    } else {
        let front = plain_entries(entries.drop_last(), rel);
        let path = joined(rel, entries.last().name@);
        match entries.last().kind {
            SizedKind::File(bytes) => front.push((FileFacts { path, bytes, symlink: false })),
            SizedKind::Symlink => front.push((FileFacts { path, bytes: 0, symlink: true })),
            SizedKind::Directory(_) => front,
        }
    }
}

/// Every file and symlink under a directory: its own, then those of its
/// subdirectories, the last one first. Symlinks count no bytes and are never
/// followed; directories are not entries.
pub open spec fn tree_entries(entries: Seq<SizedNode>, rel: Seq<char>) -> Seq<FileFacts>
    decreases entries, 1int,
{
    plain_entries(entries, rel) + entries_below(entries, rel)
}

/// Every file and symlink under the subdirectories of a directory, the last
/// one first.
pub open spec fn entries_below(entries: Seq<SizedNode>, rel: Seq<char>) -> Seq<FileFacts>
    decreases entries, 0int,
{
    if entries.len() == 0 {
        Seq::empty()
    } else {
        let node = entries[entries.len() - 1];
        let front = entries_below(entries.subrange(0, entries.len() - 1), rel);
        match node.kind {
            SizedKind::Directory(v) => tree_entries(v@, joined(rel, node.name@)) + front,
            _ => front,
        }
    }
}

fn path_text_of(dir: &str, name: &str) -> (r: String)
    ensures
        r@ == joined(dir@, name@),
{
    from_chars(&join_path(&to_chars(dir), &to_chars(name)))
}

impl BundleWriter {
    /// A writer for an empty bundle directory.
    pub fn create(root: &str, redactor: Redactor) -> (r: BundleWriter)
        ensures
            r.root@ == root@,
            r.redactor == redactor,
            r.files@.len() == 0,
    {
        BundleWriter { root: root.to_owned(), redactor, files: Vec::new() }
    }

    /// The redactor.
    pub fn redactor(&mut self) -> (r: &mut Redactor)
        ensures
            *r == old(self).redactor,
            *final(self) == (BundleWriter { redactor: *final(r), ..*old(self) }),
    {
        &mut self.redactor
    }

    /// Every file recorded so far. The manifest never lists itself.
    pub fn files(&self) -> (r: &Vec<FileEntry>)
        ensures
            r == self.files,
    {
        &self.files
    }

    /// Records a file that was written.
    pub fn record(&mut self, rel: &str, bytes: u64, symlink: bool)
        ensures
            file_facts(final(self).files@) == file_facts(old(self).files@).push(
                (FileFacts { path: rel@, bytes, symlink }),
            ),
            *final(self) == (BundleWriter { files: final(self).files, ..*old(self) }),
    {
        let ghost before = file_facts(self.files@);
        self.files.push(FileEntry { path: rel.to_owned(), bytes, symlink });
        assert(file_facts(self.files@) =~= before.push((FileFacts { path: rel@, bytes, symlink })));
    }

    /// The bytes to write for a text: what the redactor makes of it. A text
    /// that another component wrote is rewritten the same way.
    pub fn write_text(&mut self, rel: &str, text: &str) -> (r: FileWrite)
        ensures
            r.rel@ == rel@,
            r.path@ == joined(old(self).root@, rel@),
            r.bytes@ == encode_utf8(old(self).redactor.masks(text@).text),
            *final(self) == (BundleWriter { redactor: old(self).redactor.after(text@), ..*old(self) }),
    {
        let redacted = self.redactor.text(text);
        FileWrite {
            rel: rel.to_owned(),
            path: path_text_of(self.root.as_str(), rel),
            bytes: encode(redacted.as_str()),
        }
    }

    /// The bytes to write as they are (descriptor blobs are device identity,
    /// never redacted).
    pub fn write_bytes(&self, rel: &str, bytes: &Vec<u8>) -> (r: FileWrite)
        ensures
            r.rel@ == rel@,
            r.path@ == joined(self.root@, rel@),
            r.bytes@ == bytes@,
    {
        FileWrite {
            rel: rel.to_owned(),
            path: path_text_of(self.root.as_str(), rel),
            bytes: copy_bytes(bytes),
        }
    }

    /// What follows a write: a file that was written is recorded with its
    /// size, and one that was not is not.
    pub fn wrote(&mut self, write: &FileWrite, outcome: Result<(), String>) -> (r: Result<(), String>)
        ensures
            r == outcome,
            match outcome {
                Ok(_) => file_facts(final(self).files@) == file_facts(old(self).files@).push(
                    (FileFacts { path: write.rel@, bytes: write.bytes@.len() as u64, symlink: false }),
                ) && *final(self) == (BundleWriter { files: final(self).files, ..*old(self) }),
                Err(_) => *final(self) == *old(self),
            },
    {
        if outcome.is_ok() {
            self.record(write.rel.as_str(), write.bytes.len() as u64, false);
        }
        outcome
    }

    /// Records every regular file and symlink under `rel` (the fixture
    /// subtree the capturer wrote).
    pub fn record_dir(&mut self, rel: &str, entries: &Vec<SizedNode>)
        ensures
            file_facts(final(self).files@) == file_facts(old(self).files@) + tree_entries(entries@, rel@),
            *final(self) == (BundleWriter { files: final(self).files, ..*old(self) }),
        decreases entries@,
    {
        let ghost start = file_facts(self.files@);
        let ghost here = plain_entries(entries@, rel@);
        let mut i: usize = 0;
        assert(entries@.take(0) =~= Seq::<SizedNode>::empty());
        assert(start + plain_entries(entries@.take(0), rel@) =~= start);
        while i < entries.len()
            invariant
                i <= entries@.len(),
                file_facts(self.files@) == start + plain_entries(entries@.take(i as int), rel@),
                *self == (BundleWriter { files: self.files, ..*old(self) }),
            decreases entries@.len() - i,
        {
            assert(entries@.take(i + 1).drop_last() =~= entries@.take(i as int));
            let ghost before = plain_entries(entries@.take(i as int), rel@);
            let path = path_text_of(rel, entries[i].name.as_str());
            match &entries[i].kind {
                SizedKind::File(bytes) => {
                    self.record(path.as_str(), *bytes, false);
                    let ghost f = FileFacts { path: path@, bytes: *bytes, symlink: false };
                    assert((start + before).push(f) =~= start + before.push(f));
                },
                SizedKind::Symlink => {
                    self.record(path.as_str(), 0, true);
                    let ghost f = FileFacts { path: path@, bytes: 0, symlink: true };
                    assert((start + before).push(f) =~= start + before.push(f));
                },
                SizedKind::Directory(_) => {},
            }
            i = i + 1;
        }
        assert(entries@.take(entries@.len() as int) =~= entries@);
        let mut k: usize = entries.len();
        assert(entries@.subrange(0, entries@.len() as int) =~= entries@);
        let ghost whole = tree_entries(entries@, rel@);
        assert(file_facts(self.files@) + entries_below(entries@, rel@) =~= start + whole);
        while k > 0
            invariant
                k <= entries@.len(),
                whole == tree_entries(entries@, rel@),
                file_facts(self.files@) + entries_below(entries@.subrange(0, k as int), rel@) == start + whole,
                *self == (BundleWriter { files: self.files, ..*old(self) }),
            decreases k,
        {
            let ghost front = entries@.subrange(0, k as int);
            let node = &entries[k - 1];
            assert(front[front.len() - 1] == *node);
            assert(front.subrange(0, front.len() - 1) =~= entries@.subrange(0, k - 1));
            let ghost rest = entries_below(entries@.subrange(0, k - 1), rel@);
            if let SizedKind::Directory(children) = &node.kind {
                let path = path_text_of(rel, node.name.as_str());
                let ghost before = file_facts(self.files@);
                assert(decreases_to!(entries@ => entries@[k - 1]));
                self.record_dir(path.as_str(), children);
                assert(file_facts(self.files@) + rest =~= before + (tree_entries(children@, path@) + rest));
            }
            k = k - 1;
        }
        assert(entries_below(entries@.subrange(0, 0), rel@) =~= Seq::<FileFacts>::empty());
        assert(file_facts(self.files@) =~= start + whole);
    }

    /// What `manifest.toml` says: format version, creation time, the
    /// redaction summary, every unavailable note, and the file list sorted by
    /// path. The manifest never lists itself.
    pub fn write_manifest(&self, created_unix: u64, unavailable: Vec<Note>, version: &str) -> (r: Manifest)
        ensures
            r.format_version == FORMAT_VERSION,
            r.created_unix == created_unix,
            r.created_utc@ == crate::diag::utc::iso_text(created_unix),
            r.usbtop_ng@ == version@,
            rule_counts(r.redaction@) == self.redactor.fired_rules(),
            r.unavailable == unavailable,
            file_facts(r.files@) == sorted_by(file_facts(self.files@), by_path()),
    {
        let mut copies: Vec<FileEntry> = Vec::new();
        let ghost all = file_facts(self.files@);
        let mut i: usize = 0;
        assert(file_facts(copies@) =~= all.take(0));
        while i < self.files.len()
            invariant
                i <= self.files@.len(),
                all == file_facts(self.files@),
                file_facts(copies@) == all.take(i as int),
            decreases self.files@.len() - i,
        {
            let f = &self.files[i];
            let ghost before = file_facts(copies@);
            copies.push(FileEntry { path: f.path.clone(), bytes: f.bytes, symlink: f.symlink });
            assert(file_facts(copies@) =~= before.push(all[i as int]));
            assert(all.take(i + 1) =~= all.take(i as int).push(all[i as int]));
            i = i + 1;
        }
        assert(all.take(all.len() as int) =~= all);
        proof {
            lemma_sorted_mapped(copies@, rank::<FileEntry>(), |f: FileEntry| f@, by_path());
        }
        Manifest {
            format_version: FORMAT_VERSION,
            created_unix,
            created_utc: utc_iso(created_unix),
            usbtop_ng: version.to_owned(),
            redaction: self.redactor.summary(),
            unavailable,
            files: sort(copies),
        }
    }

    /// The directory that an archive is made from, and the name in it that is
    /// archived.
    pub fn archive_place(&self) -> (r: Result<(String, String), Note>)
        ensures
            match name_of(self.root@) {
                Some(name) => r matches Ok(p) && p.0@ == parent_text(self.root@) && p.1@ == name,
                None => r matches Err(n) && n@ == (NoteFacts {
                    item: "archive"@,
                    reason: "could not determine the bundle directory name"@,
                }),
            },
    {
        match last_name(&to_chars(self.root.as_str())) {
            None => Err(note("archive", "could not determine the bundle directory name")),
            Some(name) => Ok((holding_text(self.root.as_str()), from_chars(&name))),
        }
    }
}

/// How an archiver's run went.
#[derive(Debug)]
pub enum ArchiverRun {
    /// It could not be started.
    NotStarted(String),
    /// It ended without success: its status, and what it wrote to its error
    /// stream.
    Failed { status: String, stderr: Vec<u8> },
    /// It ended well; the archive's size, or why that could not be read.
    Ended(Result<u64, String>),
}

/// The note about an archive that was not made.
pub open spec fn archive_note(program: Seq<char>, archive: Seq<char>, run: ArchiverRun) -> Seq<char> {
    match run {
        ArchiverRun::NotStarted(e) => "could not run "@ + program + ": "@ + e@,
        ArchiverRun::Failed { status, stderr } => "could not run "@ + program + ": exited with "@ + status@ + ": "@
            + trimmed(lossy_text(stderr@)),
        ArchiverRun::Ended(Err(e)) => "could not read "@ + archive + " after tar: "@ + e@,
        ArchiverRun::Ended(Ok(_)) => Seq::empty(),
    }
}

/// What comes of an archiver's run: the archive's size, or a note. A missing
/// archiver or a failing one is a note, and the directory stays for the user
/// to archive by hand.
pub fn archive_with(archive: &str, program: &str, run: &ArchiverRun) -> (r: Result<u64, Note>)
    ensures
        match *run {
            ArchiverRun::Ended(Ok(bytes)) => r == Ok::<u64, Note>(bytes),
            _ => r matches Err(n) && n@ == (NoteFacts {
                item: "archive"@,
                reason: archive_note(program@, archive@, *run),
            }),
        },
{
    let mut v: Vec<char>;
    match run {
        ArchiverRun::Ended(Ok(bytes)) => {
            return Ok(*bytes);
        },
        ArchiverRun::NotStarted(e) => {
            v = to_chars("could not run ");
            extend_str(&mut v, program);
            extend_str(&mut v, ": ");
            extend_str(&mut v, e.as_str());
        },
        ArchiverRun::Failed { status, stderr } => {
            v = to_chars("could not run ");
            extend_str(&mut v, program);
            extend_str(&mut v, ": exited with ");
            extend_str(&mut v, status.as_str());
            extend_str(&mut v, ": ");
            let text = decode_lossy(stderr);
            extend(&mut v, &trim(&to_chars(text.as_str())));
        },
        ArchiverRun::Ended(Err(e)) => {
            v = to_chars("could not read ");
            extend_str(&mut v, archive);
            extend_str(&mut v, " after tar: ");
            extend_str(&mut v, e.as_str());
        },
    }
    Err(note("archive", from_chars(&v).as_str()))
}

impl BundleWriter {
    /// What comes of archiving the bundle with `tar`, whose run went as
    /// `run` says.
    pub fn archive(&self, target: &str, run: &ArchiverRun) -> (r: Result<u64, Note>)
        ensures
            match name_of(self.root@) {
                None => r matches Err(n) && n@ == (NoteFacts {
                    item: "archive"@,
                    reason: "could not determine the bundle directory name"@,
                }),
                Some(_) => match *run {
                    ArchiverRun::Ended(Ok(bytes)) => r == Ok::<u64, Note>(bytes),
                    _ => r matches Err(n) && n@ == (NoteFacts {
                        item: "archive"@,
                        reason: archive_note("tar"@, target@, *run),
                    }),
                },
            },
    {
        match self.archive_place() {
            Err(n) => Err(n),
            Ok(_) => archive_with(target, "tar", run),
        }
    }
}

/// Why an embedded fixture breaks the capturer's invariants.
#[derive(Debug)]
pub enum InvariantFault {
    Payload(PayloadFault),
    Containment(ContainmentFault),
}

impl InvariantFault {
    /// The sentence about a fault.
    pub fn message(&self) -> (r: String)
        ensures
            r@ == (match self {
                InvariantFault::Payload(f) => f.text(),
                InvariantFault::Containment(f) => match f@ {
                    EscapeFacts::Unresolved(p) => "canonicalize "@ + p,
                    EscapeFacts::Escapes(p) => "SEC-2: "@ + p + " escapes the bundle"@,
                    EscapeFacts::Unlisted(e) => e,
                },
            }),
    {
        match self {
            InvariantFault::Payload(f) => f.message(),
            InvariantFault::Containment(f) => f.message(),
        }
    }
}

/// The fault of a trace that may be missing.
pub open spec fn trace_fault(source: FixtureSource, bytes: Option<Vec<u8>>, order: ByteOrder) -> Option<PayloadFault> {
    match bytes {
        Some(b) => payload_fault(source, b@, order),
        None => None,
    }
}

/// Re-asserts the capturer's own invariants over an embedded fixture: no
/// payload in either trace, and nothing in its tree that leads out of it. A
/// violation is a bug in the capturer, so it fails the run rather than
/// shipping the bundle.
pub fn assert_fixture_invariants(
    binary: Option<Vec<u8>>,
    text: Option<Vec<u8>>,
    tree: Option<&Vec<Node>>,
    tree_root: &str,
    order: ByteOrder,
) -> (r: Result<(), InvariantFault>)
    ensures
        ({
            let first = trace_fault(FixtureSource::Binary, binary, order);
            let second = trace_fault(FixtureSource::Text, text, order);
            let third = match tree {
                Some(t) => escape_in(t@, tree_root@, tree_root@),
                None => None,
            };
            match (first, second, third) {
                (Some(f), _, _) => r matches Err(InvariantFault::Payload(p)) && p == f,
                (None, Some(f), _) => r matches Err(InvariantFault::Payload(p)) && p == f,
                (None, None, Some(f)) => r matches Err(InvariantFault::Containment(c)) && c@ == f,
                (None, None, None) => r is Ok,
            }
        }),
{
    if let Some(bytes) = binary {
        let trace = CapturedTrace { source: FixtureSource::Binary, bytes, kernel_dropped: None };
        if let Err(f) = assert_payload_free(&trace, order) {
            return Err(InvariantFault::Payload(f));
        }
    }
    if let Some(bytes) = text {
        let trace = CapturedTrace { source: FixtureSource::Text, bytes, kernel_dropped: None };
        if let Err(f) = assert_payload_free(&trace, order) {
            return Err(InvariantFault::Payload(f));
        }
    }
    if let Some(entries) = tree {
        if let Err(f) = assert_sysfs_contained(entries, tree_root) {
            return Err(InvariantFault::Containment(f));
        }
    }
    Ok(())
}

/// Something handed to the invoking user.
#[derive(Debug)]
pub struct Handed {
    pub path: String,
    pub directory: bool,
}

/// What a `Handed` says: the path, and whether it is a directory.
pub open spec fn handed_facts(v: Seq<Handed>) -> Seq<(Seq<char>, bool)> {
    v.map_values(|h: Handed| (h.path@, h.directory))
}

/// The files of a directory itself that are handed over, in listing order.
/// Symlinks are left alone: removing one needs only the directory.
pub open spec fn files_handed(entries: Seq<SizedNode>, dir: Seq<char>) -> Seq<(Seq<char>, bool)>
    decreases entries.len(),
{
    if entries.len() == 0 {
        Seq::empty()
    } else {
        let front = files_handed(entries.drop_last(), dir);
        match entries.last().kind {
            SizedKind::File(_) => front.push((joined(dir, entries.last().name@), false)),
            _ => front,
        }
    }
}

/// A directory and everything under it that is handed over: the directory,
/// its files, then its subdirectories, the last one first.
pub open spec fn tree_handed(entries: Seq<SizedNode>, dir: Seq<char>) -> Seq<(Seq<char>, bool)>
    decreases entries, 1int,
{
    seq![(dir, true)] + files_handed(entries, dir) + handed_below(entries, dir)
}

/// What is handed over under the subdirectories of a directory, the last one
/// first.
pub open spec fn handed_below(entries: Seq<SizedNode>, dir: Seq<char>) -> Seq<(Seq<char>, bool)>
    decreases entries, 0int,
{
    if entries.len() == 0 {
        Seq::empty()
    } else {
        let node = entries[entries.len() - 1];
        let front = handed_below(entries.subrange(0, entries.len() - 1), dir);
        match node.kind {
            SizedKind::Directory(v) => tree_handed(v@, joined(dir, node.name@)) + front,
            _ => front,
        }
    }
}

fn hand(out: &mut Vec<Handed>, path: String, directory: bool)
    ensures
        handed_facts(final(out)@) == handed_facts(old(out)@).push((path@, directory)),
{
    let ghost before = handed_facts(out@);
    let ghost fact = (path@, directory);
    out.push(Handed { path, directory });
    assert(handed_facts(out@) =~= before.push(fact));
}

fn hand_over(root: &str, entries: &Vec<SizedNode>, out: &mut Vec<Handed>)
    ensures
        handed_facts(final(out)@) == handed_facts(old(out)@) + tree_handed(entries@, root@),
    decreases entries@,
{
    let ghost start = handed_facts(out@);
    hand(out, root.to_owned(), true);
    let ghost opened = start.push((root@, true));
    let mut i: usize = 0;
    assert(entries@.take(0) =~= Seq::<SizedNode>::empty());
    assert(opened + files_handed(entries@.take(0), root@) =~= opened);
    while i < entries.len()
        invariant
            i <= entries@.len(),
            handed_facts(out@) == opened + files_handed(entries@.take(i as int), root@),
        decreases entries@.len() - i,
    {
        assert(entries@.take(i + 1).drop_last() =~= entries@.take(i as int));
        let ghost before = files_handed(entries@.take(i as int), root@);
        if let SizedKind::File(_) = &entries[i].kind {
            let path = path_text_of(root, entries[i].name.as_str());
            let ghost fact = (path@, false);
            hand(out, path, false);
            assert((opened + before).push(fact) =~= opened + before.push(fact));
        }
        i = i + 1;
    }
    assert(entries@.take(entries@.len() as int) =~= entries@);
    let mut k: usize = entries.len();
    assert(entries@.subrange(0, entries@.len() as int) =~= entries@);
    let ghost whole = tree_handed(entries@, root@);
    assert(handed_facts(out@) + handed_below(entries@, root@) =~= start + whole);
    while k > 0
        invariant
            k <= entries@.len(),
            handed_facts(out@) + handed_below(entries@.subrange(0, k as int), root@) == start + whole,
        decreases k,
    {
        let ghost front = entries@.subrange(0, k as int);
        let node = &entries[k - 1];
        assert(front[front.len() - 1] == *node);
        assert(front.subrange(0, front.len() - 1) =~= entries@.subrange(0, k - 1));
        let ghost rest = handed_below(entries@.subrange(0, k - 1), root@);
        if let SizedKind::Directory(children) = &node.kind {
            let path = path_text_of(root, node.name.as_str());
            let ghost before = handed_facts(out@);
            assert(decreases_to!(entries@ => entries@[k - 1]));
            hand_over(path.as_str(), children, out);
            assert(handed_facts(out@) + rest =~= before + (tree_handed(children@, path@) + rest));
        }
        k = k - 1;
    }
    assert(handed_below(entries@.subrange(0, 0), root@) =~= Seq::<(Seq<char>, bool)>::empty());
    assert(handed_facts(out@) =~= start + whole);
}

/// Everything under `root` to hand to the invoking user under `sudo`, so a
/// bundle written into their directory is theirs to delete: every directory
/// and every file, no symlink.
pub fn own_tree(root: &str, entries: &Vec<SizedNode>) -> (r: Vec<Handed>)
    ensures
        handed_facts(r@) == tree_handed(entries@, root@),
{
    let mut out: Vec<Handed> = Vec::new();
    assert(handed_facts(out@) =~= Seq::<(Seq<char>, bool)>::empty());
    hand_over(root, entries, &mut out);
    assert(Seq::<(Seq<char>, bool)>::empty() + tree_handed(entries@, root@) =~= tree_handed(entries@, root@));
    out
}

/// The paths of the files among what is handed over.
pub open spec fn handed_files(v: Seq<(Seq<char>, bool)>) -> Seq<Seq<char>>
    decreases v.len(),
{
    if v.len() == 0 {
        Seq::empty()
    } else if v.last().1 {
        handed_files(v.drop_last())
    } else {
        handed_files(v.drop_last()).push(v.last().0)
    }
}

/// The paths of the regular files among recorded ones.
pub open spec fn regular_files(v: Seq<FileFacts>) -> Seq<Seq<char>>
    decreases v.len(),
{
    if v.len() == 0 {
        Seq::empty()
    } else if v.last().symlink {
        regular_files(v.drop_last())
    } else {
        regular_files(v.drop_last()).push(v.last().path)
    }
}

proof fn lemma_handed_files_of_both(a: Seq<(Seq<char>, bool)>, b: Seq<(Seq<char>, bool)>)
    ensures
        handed_files(a + b) == handed_files(a) + handed_files(b),
    decreases b.len(),
{
    if b.len() == 0 {
        assert(a + b =~= a);
        assert(handed_files(a) + handed_files(b) =~= handed_files(a));
    } else {
        lemma_handed_files_of_both(a, b.drop_last());
        assert((a + b).drop_last() =~= a + b.drop_last());
        assert(handed_files(a + b) =~= handed_files(a) + handed_files(b));
    }
}

proof fn lemma_regular_files_of_both(a: Seq<FileFacts>, b: Seq<FileFacts>)
    ensures
        regular_files(a + b) == regular_files(a) + regular_files(b),
    decreases b.len(),
{
    if b.len() == 0 {
        assert(a + b =~= a);
        assert(regular_files(a) + regular_files(b) =~= regular_files(a));
    } else {
        lemma_regular_files_of_both(a, b.drop_last());
        assert((a + b).drop_last() =~= a + b.drop_last());
        assert(regular_files(a + b) =~= regular_files(a) + regular_files(b));
    }
}

proof fn lemma_own_files_agree(entries: Seq<SizedNode>, dir: Seq<char>)
    ensures
        handed_files(files_handed(entries, dir)) == regular_files(plain_entries(entries, dir)),
    decreases entries.len(),
{
    if entries.len() > 0 {
        lemma_own_files_agree(entries.drop_last(), dir);
        let handed = files_handed(entries.drop_last(), dir);
        let plain = plain_entries(entries.drop_last(), dir);
        let path = joined(dir, entries.last().name@);
        match entries.last().kind {
            SizedKind::File(bytes) => {
                assert(handed.push((path, false)).drop_last() =~= handed);
                assert(plain.push((FileFacts { path, bytes, symlink: false })).drop_last() =~= plain);
            },
            SizedKind::Symlink => {
                assert(plain.push((FileFacts { path, bytes: 0, symlink: true })).drop_last() =~= plain);
            },
            SizedKind::Directory(_) => {},
        }
    }
}

/// Every regular file that the manifest records below a directory is handed
/// over with it, in the same order, and no other file is.
pub proof fn law_every_recorded_file_is_handed_over(entries: Seq<SizedNode>, dir: Seq<char>)
    ensures
        handed_files(tree_handed(entries, dir)) == regular_files(tree_entries(entries, dir)),
    decreases entries, 1int,
{
    let here = seq![(dir, true)];
    lemma_handed_files_of_both(here + files_handed(entries, dir), handed_below(entries, dir));
    lemma_handed_files_of_both(here, files_handed(entries, dir));
    lemma_own_files_agree(entries, dir);
    lemma_below_agrees(entries, dir);
    lemma_regular_files_of_both(plain_entries(entries, dir), entries_below(entries, dir));
    assert(here.drop_last() =~= Seq::<(Seq<char>, bool)>::empty());
    assert(handed_files(here.drop_last()) =~= Seq::<Seq<char>>::empty());
    assert(handed_files(here) == handed_files(here.drop_last()));
    assert(handed_files(here) + handed_files(files_handed(entries, dir)) =~= handed_files(files_handed(entries, dir)));
}

proof fn lemma_below_agrees(entries: Seq<SizedNode>, dir: Seq<char>)
    ensures
        handed_files(handed_below(entries, dir)) == regular_files(entries_below(entries, dir)),
    decreases entries, 0int,
{
    if entries.len() > 0 {
        let node = entries[entries.len() - 1];
        let front = entries.subrange(0, entries.len() - 1);
        lemma_below_agrees(front, dir);
        if let SizedKind::Directory(v) = node.kind {
            let path = joined(dir, node.name@);
            assert(decreases_to!(entries => entries[entries.len() - 1]));
            law_every_recorded_file_is_handed_over(v@, path);
            lemma_handed_files_of_both(tree_handed(v@, path), handed_below(front, dir));
            lemma_regular_files_of_both(tree_entries(v@, path), entries_below(front, dir));
        }
    }
}

} // verus!
