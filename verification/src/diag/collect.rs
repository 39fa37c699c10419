//! What a support bundle says of the build, the host, usbmon, the
//! configuration and the terminal. Every collector works on what was read of
//! the host and returns notes instead of errors: a missing file is a fact
//! about the host, not a failure of the bundle.

use vstd::prelude::*;

use crate::device::text_of;
use crate::diag::files::{entry_at, find_at, raw_text, read_at, value_at};
use crate::diag::redact::{is_allowlisted, tally, tokens_masked, uuid_count, Redactor};
use crate::diag::{note, notes, Note, NoteFacts};
use crate::filter::{lowercase, lowercased};
use crate::headless::export::{enabled_features, feature_names};
use crate::number::{float_text, is_float_text, octal4, parse_uint, read_uint, to_octal4};

use crate::path::{join_path, joined};
use crate::sysfs::{Content, Node};
use crate::table::NameTable;
use crate::text::{
    char_views, contains, decode_lossy, extend, extend_str, find_char, find_line, first_index, first_starting,
    from_chars, join_with, lines, lines_of, lossy_text, occurs, slice, starts, starts_with, string_views, to_chars,
    trim, trimmed, unquote, unquoted, words, words_of,
};

verus! {

/// A text, or nothing at all.
pub open spec fn or_empty(t: Option<Seq<char>>) -> Seq<char> {
    match t {
        Some(t) => t,
        None => Seq::empty(),
    }
}

/// The characters of a text that may be absent.
pub open spec fn opt_view(t: Option<&str>) -> Option<Seq<char>> {
    match t {
        Some(t) => Some(t@),
        None => None,
    }
}

/// A text, or an empty one.
pub fn or_default(t: Option<String>) -> (r: String)
    ensures
        r@ == or_empty(text_of(t)),
{
    match t {
        Some(t) => t,
        None => from_chars(&Vec::new()),
    }
}

/// `PRETTY_NAME` of an os-release text, quotes stripped.
pub open spec fn pretty_name(text: Seq<char>) -> Option<Seq<char>> {
    match first_starting(lines_of(text), "PRETTY_NAME="@) {
        Some(line) => Some(unquoted(trimmed(line.skip("PRETTY_NAME="@.len() as int)))),
        None => None,
    }
}

/// `PRETTY_NAME` from `/etc/os-release` text, quotes stripped.
pub fn os_pretty_name_from(text: &str) -> (r: Option<String>)
    ensures
        text_of(r) == pretty_name(text@),
{
    let key = to_chars("PRETTY_NAME=");
    let all = lines(&to_chars(text));
    match find_line(&all, &key) {
        Some(line) => {
            proof {
                lemma_first_starting(char_views(all@), key@);
            }
            let value = slice(&line, key.len(), line.len());
            assert(value@ =~= line@.skip(key@.len() as int));
            Some(from_chars(&unquote(&trim(&value))))
        },
        None => None,
    }
}

proof fn lemma_first_starting(lines: Seq<Seq<char>>, p: Seq<char>)
    ensures
        first_starting(lines, p) matches Some(line) ==> starts(line, p),
    decreases lines.len(),
{
    if lines.len() > 0 && !starts(lines[0], p) {
        lemma_first_starting(lines.skip(1), p);
    }
}

/// What is known of the host.
pub struct HostInfo {
    pub kernel: String,
    pub proc_version: String,
    pub os: String,
    /// Device-tree `model`, else DMI `sys_vendor product_name`.
    pub board: String,
    /// Device-tree `compatible`; empty on DMI hosts.
    pub soc: String,
    pub cpu_model: String,
    pub cpu_count: usize,
    pub mem_total_kb: Option<u64>,
    /// Seconds since boot, as the kernel writes them; none when that is no
    /// number.
    pub uptime_s: Option<String>,
    /// `systemd-detect-virt`'s answer, when the tool exists.
    pub virtualization: Option<String>,
    /// `/proc/cmdline` with filesystem UUIDs masked.
    pub cmdline: String,
    pub lockdown: String,
    /// Every file under `/sys/module/usbcore/parameters/`.
    pub usbcore_params: NameTable<String>,
}

/// What a `HostInfo` says.
pub struct HostFacts {
    pub kernel: Seq<char>,
    pub proc_version: Seq<char>,
    pub os: Seq<char>,
    pub board: Seq<char>,
    pub soc: Seq<char>,
    pub cpu_model: Seq<char>,
    pub cpu_count: nat,
    pub mem_total_kb: Option<u64>,
    pub uptime_s: Option<Seq<char>>,
    pub virtualization: Option<Seq<char>>,
    pub cmdline: Seq<char>,
    pub lockdown: Seq<char>,
    pub usbcore_params: Map<Seq<char>, Seq<char>>,
}

impl View for HostInfo {
    type V = HostFacts;

    open spec fn view(&self) -> HostFacts {
        HostFacts {
            kernel: self.kernel@,
            proc_version: self.proc_version@,
            os: self.os@,
            board: self.board@,
            soc: self.soc@,
            cpu_model: self.cpu_model@,
            cpu_count: self.cpu_count as nat,
            mem_total_kb: self.mem_total_kb,
            uptime_s: text_of(self.uptime_s),
            virtualization: text_of(self.virtualization),
            cmdline: self.cmdline@,
            lockdown: self.lockdown@,
            usbcore_params: self.usbcore_params@.map_values(|s: String| s@),
        }
    }
}

/// The directory trees that the host is read from.
pub struct HostRoots<'a> {
    /// `/proc`
    pub proc_root: &'a Vec<Node>,
    /// `/sys`
    pub sys_root: &'a Vec<Node>,
    /// `/etc`
    pub etc_root: &'a Vec<Node>,
    /// `/sys/class/dmi/id`
    pub dmi_root: &'a Vec<Node>,
    /// `/proc/device-tree`
    pub device_tree_root: &'a Vec<Node>,
}

/// The value of a `key: value` line of `/proc/cpuinfo` that names the model.
pub open spec fn names_model(line: Seq<char>) -> bool {
    starts(line, "model name"@) || starts(line, "Model"@)
}

/// What follows the first colon of a line, trimmed.
pub open spec fn after_colon(line: Seq<char>) -> Option<Seq<char>> {
    let k = first_index(line, ':');
    if k < line.len() {
        Some(trimmed(line.skip(k as int + 1)))
    } else {
        None
    }
}

/// The model that the first line that names one gives.
pub open spec fn model_in(lines: Seq<Seq<char>>) -> Option<Seq<char>>
    decreases lines.len(),
{
    if lines.len() == 0 {
        None
    } else if names_model(lines[0]) {
        after_colon(lines[0])
    } else {
        model_in(lines.skip(1))
    }
}

/// How many lines start with `p`.
pub open spec fn starting_count(lines: Seq<Seq<char>>, p: Seq<char>) -> nat
    decreases lines.len(),
{
    if lines.len() == 0 {
        0
    } else {
        starting_count(lines.drop_last(), p) + (if starts(lines.last(), p) {
            1nat
        } else {
            0nat
        })
    }
}

/// The second word of the `MemTotal:` line of `/proc/meminfo`, as a number.
pub open spec fn total_memory(text: Seq<char>) -> Option<u64> {
    match first_starting(lines_of(text), "MemTotal:"@) {
        Some(line) => if words_of(line).len() > 1 {
            match read_uint(words_of(line)[1], 10, u64::MAX as nat) {
                Some(n) => Some(n as u64),
                None => None,
            }
        } else {
            None
        },
        None => None,
    }
}

/// The first word of a text.
pub open spec fn first_word(text: Seq<char>) -> Option<Seq<char>> {
    if words_of(text).len() > 0 {
        Some(words_of(text)[0])
    } else {
        None
    }
}

/// The board: its device-tree model, else DMI's vendor and product.
pub open spec fn board_of(roots: HostRoots) -> Seq<char> {
    match value_at(roots.device_tree_root@, "model"@) {
        Some(model) => model,
        None => trimmed(
            or_empty(value_at(roots.dmi_root@, "sys_vendor"@)) + " "@ + or_empty(
                value_at(roots.dmi_root@, "product_name"@),
            ),
        ),
    }
}

/// Why a directory could not be listed; none when it can.
pub open spec fn list_failure(entry: Option<Node>) -> Option<Seq<char>> {
    match entry {
        None => Some("No such file or directory (os error 2)"@),
        Some(n) => match n.content {
            Content::Directory(_) => None,
            Content::Absent => Some("No such file or directory (os error 2)"@),
            Content::Unreadable(e) => Some(e@),
            Content::Unlisted(e) => Some(e@),
            _ => Some("Not a directory (os error 20)"@),
        },
    }
}

/// The value of a parameter file. One may legitimately be empty, so an empty
/// read is a value, not an absence.
pub open spec fn param_value(content: Content) -> Seq<char> {
    match raw_text(content) {
        Some(t) => trimmed(t),
        None => Seq::empty(),
    }
}

/// The values of parameter files by name.
pub open spec fn param_values(entries: Seq<Node>) -> Map<Seq<char>, Seq<char>>
    decreases entries.len(),
{
    if entries.len() == 0 {
        Map::empty()
    } else {
        param_values(entries.drop_last()).insert(entries.last().name@, param_value(entries.last().content))
    }
}

/// Where usbcore's parameters stand below `/sys`.
pub open spec fn params_dir(roots: HostRoots) -> Option<Node> {
    entry_at(roots.sys_root@, crate::text::split_on("module/usbcore/parameters"@, '/'))
}

/// What the host's files say of it.
pub open spec fn host_facts(roots: HostRoots, virtualization: Option<Seq<char>>) -> HostFacts {
    let cpuinfo = value_at(roots.proc_root@, "cpuinfo"@);
    HostFacts {
        kernel: or_empty(value_at(roots.proc_root@, "sys/kernel/osrelease"@)),
        proc_version: or_empty(value_at(roots.proc_root@, "version"@)),
        os: match value_at(roots.etc_root@, "os-release"@) {
            Some(text) => or_empty(pretty_name(text)),
            None => Seq::empty(),
        },
        board: board_of(roots),
        soc: or_empty(value_at(roots.device_tree_root@, "compatible"@)),
        cpu_model: match cpuinfo {
            Some(text) => or_empty(model_in(lines_of(text))),
            None => Seq::empty(),
        },
        cpu_count: match cpuinfo {
            Some(text) => starting_count(lines_of(text), "processor"@),
            None => 0,
        },
        mem_total_kb: match value_at(roots.proc_root@, "meminfo"@) {
            Some(text) => total_memory(text),
            None => None,
        },
        uptime_s: match value_at(roots.proc_root@, "uptime"@) {
            Some(text) => match first_word(text) {
                Some(word) => if is_float_text(word) {
                    Some(word)
                } else {
                    None
                },
                None => None,
            },
            None => None,
        },
        virtualization,
        cmdline: match value_at(roots.proc_root@, "cmdline"@) {
            Some(text) => join_with(tokens_masked(words_of(text)), " "@),
            None => Seq::empty(),
        },
        lockdown: or_empty(value_at(roots.sys_root@, "kernel/security/lockdown"@)),
        usbcore_params: match params_dir(roots) {
            Some(n) => param_values(n.children()),
            None => Map::empty(),
        },
    }
}

/// The note about a file that could not be read, if it could not.
pub open spec fn unless_read(value: Option<Seq<char>>, label: Seq<char>) -> Seq<NoteFacts> {
    if value is None {
        seq![NoteFacts { item: label, reason: "not readable"@ }]
    } else {
        Seq::empty()
    }
}

/// The note about a host whose board is unknown.
pub open spec fn board_note(roots: HostRoots) -> Seq<NoteFacts> {
    if value_at(roots.device_tree_root@, "model"@) is None && board_of(roots).len() == 0 {
        seq![
            NoteFacts {
                item: "board"@,
                reason: "neither device-tree model nor DMI product name is readable"@,
            },
        ]
    } else {
        Seq::empty()
    }
}

/// The notes about what the host's files leave unsaid, in order.
pub open spec fn host_notes(roots: HostRoots, virtualization: Option<Seq<char>>) -> Seq<NoteFacts> {
    unless_read(value_at(roots.proc_root@, "sys/kernel/osrelease"@), "proc/sys/kernel/osrelease"@) + unless_read(
        value_at(roots.proc_root@, "version"@),
        "proc/version"@,
    ) + unless_read(value_at(roots.etc_root@, "os-release"@), "etc/os-release"@) + board_note(roots) + unless_read(
        value_at(roots.proc_root@, "cpuinfo"@),
        "proc/cpuinfo"@,
    ) + unless_read(value_at(roots.proc_root@, "meminfo"@), "proc/meminfo"@) + unless_read(
        value_at(roots.proc_root@, "uptime"@),
        "proc/uptime"@,
    ) + (if virtualization is None {
        seq![NoteFacts { item: "systemd-detect-virt"@, reason: "not available"@ }]
    } else {
        Seq::empty()
    }) + unless_read(value_at(roots.proc_root@, "cmdline"@), "proc/cmdline"@) + unless_read(
        value_at(roots.sys_root@, "kernel/security/lockdown"@),
        "sys/kernel/security/lockdown"@,
    ) + (match list_failure(params_dir(roots)) {
        Some(e) => seq![NoteFacts { item: "sys/module/usbcore/parameters"@, reason: e }],
        None => Seq::empty(),
    })
}

/// Adds a note.
pub fn tell(said: &mut Vec<Note>, item: &str, reason: &str)
    ensures
        notes(final(said)@) == notes(old(said)@) + seq![NoteFacts { item: item@, reason: reason@ }],
{
    let ghost before = notes(said@);
    said.push(note(item, reason));
    assert(notes(said@) =~= before + seq![NoteFacts { item: item@, reason: reason@ }]);
}

/// Reads `rel` under `root`, noting its absence under the name `label`.
fn read_or_note(root: &Vec<Node>, rel: &str, label: &str, said: &mut Vec<Note>) -> (r: Option<String>)
    ensures
        text_of(r) == value_at(root@, rel@),
        notes(final(said)@) == notes(old(said)@) + unless_read(value_at(root@, rel@), label@),
{
    let value = read_at(root, rel);
    if value.is_none() {
        tell(said, label, "not readable");
    } else {
        assert(notes(said@) + Seq::<NoteFacts>::empty() =~= notes(said@));
    }
    value
}

fn cpu_model_in(all: &Vec<Vec<char>>) -> (r: Option<Vec<char>>)
    ensures
        match r {
            Some(v) => model_in(char_views(all@)) == Some(v@),
            None => model_in(char_views(all@)) is None,
        },
{
    let ghost views = char_views(all@);
    let name = to_chars("model name");
    let short = to_chars("Model");
    let mut i: usize = 0;
    assert(views.skip(0) =~= views);
    while i < all.len()
        invariant
            i <= all@.len(),
            views == char_views(all@),
            name@ == "model name"@,
            short@ == "Model"@,
            model_in(views.skip(i as int)) == model_in(views),
        decreases all@.len() - i,
    {
        let line = &all[i];
        assert(views.skip(i as int)[0] == line@);
        if starts_with(line, &name) || starts_with(line, &short) {
            let k = find_char(line, ':', 0);
            assert(line@.skip(0) =~= line@);
            if k == line.len() {
                return None;
            }
            let value = slice(line, k + 1, line.len());
            assert(value@ =~= line@.skip(k + 1));
            return Some(trim(&value));
        }
        assert(views.skip(i as int).skip(1) =~= views.skip(i + 1));
        i = i + 1;
    }
    None
}

fn count_starting(all: &Vec<Vec<char>>, p: &Vec<char>) -> (r: usize)
    ensures
        r == starting_count(char_views(all@), p@),
{
    let ghost views = char_views(all@);
    let mut n: usize = 0;
    let mut i: usize = 0;
    while i < all.len()
        invariant
            i <= all.len(),
            views == char_views(all@),
            n <= i,
            n == starting_count(views.take(i as int), p@),
        decreases all@.len() - i,
    {
        assert(views.take(i + 1).drop_last() =~= views.take(i as int));
        assert(views[i as int] == all@[i as int]@);
        if starts_with(&all[i], p) {
            n = n + 1;
        }
        i = i + 1;
    }
    assert(views.take(views.len() as int) =~= views);
    n
}

fn memory_in(text: &str) -> (r: Option<u64>)
    ensures
        r == total_memory(text@),
{
    match find_line(&lines(&to_chars(text)), &to_chars("MemTotal:")) {
        Some(line) => {
            let w = words(&line);
            assert(char_views(w@) == words_of(line@));
            if w.len() > 1 {
                assert(words_of(line@)[1] == w@[1]@);
                parse_uint(&w[1], 10, u64::MAX)
            } else {
                None
            }
        },
        None => None,
    }
}

fn read_params(entries: &Vec<Node>) -> (r: NameTable<String>)
    ensures
        r@.map_values(|s: String| s@) == param_values(entries@),
{
    let mut t: NameTable<String> = NameTable::new();
    let mut i: usize = 0;
    assert(t@.map_values(|s: String| s@) =~= Map::<Seq<char>, Seq<char>>::empty());
    while i < entries.len()
        invariant
            i <= entries@.len(),
            t@.map_values(|s: String| s@) == param_values(entries@.take(i as int)),
        decreases entries@.len() - i,
    {
        assert(entries@.take(i + 1).drop_last() =~= entries@.take(i as int));
        let value = match &entries[i].content {
            Content::Text(t) => from_chars(&trim(&to_chars(t.as_str()))),
            Content::Bytes(b) => from_chars(&trim(&to_chars(decode_lossy(b).as_str()))),
            _ => from_chars(&Vec::new()),
        };
        assert(value@ =~= param_value(entries@[i as int].content));
        let ghost before = t@;
        let ghost (k, v) = (entries@[i as int].name@, value@);
        t.insert(entries[i].name.clone(), value);
        assert(t@.map_values(|s: String| s@) =~= before.map_values(|s: String| s@).insert(k, v));
        i = i + 1;
    }
    assert(entries@.take(entries@.len() as int) =~= entries@);
    t
}

fn read_board(roots: &HostRoots, said: &mut Vec<Note>) -> (r: String)
    ensures
        r@ == board_of(*roots),
        notes(final(said)@) == notes(old(said)@) + board_note(*roots),
{
    match read_at(roots.device_tree_root, "model") {
        Some(model) => {
            assert(notes(said@) + Seq::<NoteFacts>::empty() =~= notes(said@));
            model
        },
        None => {
            let vendor = or_default(read_at(roots.dmi_root, "sys_vendor"));
            let product = or_default(read_at(roots.dmi_root, "product_name"));
            let mut v = to_chars(vendor.as_str());
            extend_str(&mut v, " ");
            extend_str(&mut v, product.as_str());
            let board = trim(&v);
            if board.len() == 0 {
                tell(said, "board", "neither device-tree model nor DMI product name is readable");
            } else {
                assert(notes(said@) + Seq::<NoteFacts>::empty() =~= notes(said@));
            }
            from_chars(&board)
        },
    }
}

/// The redactor once it has rewritten the kernel command line.
pub open spec fn after_cmdline(before: Redactor, cmdline: Option<Seq<char>>) -> Redactor {
    match cmdline {
        Some(text) => Redactor { fs_uuids: tally(before.fs_uuids, uuid_count(words_of(text))), ..before },
        None => before,
    }
}

/// The host's kernel, distribution, board, processor, memory and USB
/// settings, with a note for each that could not be read.
pub fn collect_host(roots: &HostRoots, virtualization: Option<String>, redactor: &mut Redactor) -> (r: (
    HostInfo,
    Vec<Note>,
))
    ensures
        r.0@ == host_facts(*roots, text_of(virtualization)),
        notes(r.1@) == host_notes(*roots, text_of(virtualization)),
        *final(redactor) == after_cmdline(*old(redactor), value_at(roots.proc_root@, "cmdline"@)),
{
    let mut said: Vec<Note> = Vec::new();
    let ghost virt = text_of(virtualization);
    assert(notes(said@) =~= Seq::<NoteFacts>::empty());
    let kernel = read_or_note(roots.proc_root, "sys/kernel/osrelease", "proc/sys/kernel/osrelease", &mut said);
    let proc_version = read_or_note(roots.proc_root, "version", "proc/version", &mut said);
    let os = match read_or_note(roots.etc_root, "os-release", "etc/os-release", &mut said) {
        Some(text) => os_pretty_name_from(text.as_str()),
        None => None,
    };
    let board = read_board(roots, &mut said);
    let soc = or_default(read_at(roots.device_tree_root, "compatible"));
    let (cpu_model, cpu_count) = match read_or_note(roots.proc_root, "cpuinfo", "proc/cpuinfo", &mut said) {
        Some(text) => {
            let all = lines(&to_chars(text.as_str()));
            let model = match cpu_model_in(&all) {
                Some(v) => from_chars(&v),
                None => from_chars(&Vec::new()),
            };
            (model, count_starting(&all, &to_chars("processor")))
        },
        None => (from_chars(&Vec::new()), 0),
    };
    let mem_total_kb = match read_or_note(roots.proc_root, "meminfo", "proc/meminfo", &mut said) {
        Some(text) => memory_in(text.as_str()),
        None => None,
    };
    let uptime_s = match read_or_note(roots.proc_root, "uptime", "proc/uptime", &mut said) {
        Some(text) => {
            let w = words(&to_chars(text.as_str()));
            assert(char_views(w@) == words_of(text@));
            if w.len() > 0 && float_text(&w[0]) {
                Some(from_chars(&w[0]))
            } else {
                None
            }
        },
        None => None,
    };
    if virtualization.is_none() {
        tell(&mut said, "systemd-detect-virt", "not available");
    }
    let cmdline = match read_or_note(roots.proc_root, "cmdline", "proc/cmdline", &mut said) {
        Some(text) => redactor.cmdline(text.as_str()),
        None => from_chars(&Vec::new()),
    };
    let lockdown = or_default(
        read_or_note(roots.sys_root, "kernel/security/lockdown", "sys/kernel/security/lockdown", &mut said),
    );
    let usbcore_params = match find_at(roots.sys_root, "module/usbcore/parameters") {
        Some(n) => match &n.content {
            Content::Directory(entries) => read_params(entries),
            Content::Absent => {
                tell(&mut said, "sys/module/usbcore/parameters", "No such file or directory (os error 2)");
                NameTable::new()
            },
            Content::Unreadable(e) => {
                tell(&mut said, "sys/module/usbcore/parameters", e.as_str());
                NameTable::new()
            },
            Content::Unlisted(e) => {
                tell(&mut said, "sys/module/usbcore/parameters", e.as_str());
                NameTable::new()
            },
            _ => {
                tell(&mut said, "sys/module/usbcore/parameters", "Not a directory (os error 20)");
                NameTable::new()
            },
        },
        None => {
            tell(&mut said, "sys/module/usbcore/parameters", "No such file or directory (os error 2)");
            NameTable::new()
        },
    };
    let info = HostInfo {
        kernel: or_default(kernel),
        proc_version: or_default(proc_version),
        os: or_default(os),
        board,
        soc,
        cpu_model,
        cpu_count,
        mem_total_kb,
        uptime_s,
        virtualization,
        cmdline,
        lockdown,
        usbcore_params,
    };
    proof {
        let want = host_facts(*roots, virt);
        assert(info@.usbcore_params =~= want.usbcore_params);
        assert(info@.os =~= want.os);
        assert(info@.cpu_model =~= want.cpu_model);
        assert(info@.cmdline =~= want.cmdline);
        assert(notes(said@) =~= host_notes(*roots, virt));
    }
    (info, said)
}

/// What is known of the build and of how it was run.
#[derive(Debug)]
pub struct BuildInfo {
    pub version: String,
    pub features: Vec<&'static str>,
    pub arch: String,
    /// The compiler's version; absent when the build could not run it.
    pub rustc: Option<String>,
    /// The command line as run, home paths rewritten.
    pub command: Vec<String>,
    pub effective_uid: u32,
    pub running_as_root: bool,
    pub under_sudo: bool,
    pub rust_log: Option<String>,
}

/// What the compiler knew when this was built.
pub struct BuildFacts {
    pub version: String,
    pub arch: String,
    pub rustc: Option<String>,
    pub capture_fixture: bool,
    pub ebpf: bool,
    pub integration: bool,
}

/// Texts as a redactor rewrites them.
pub open spec fn all_masked(redactor: Redactor, texts: Seq<Seq<char>>) -> Seq<Seq<char>> {
    texts.map_values(|t: Seq<char>| redactor.masks(t).text)
}

/// The redactor once it has rewritten several texts.
pub open spec fn after_all(redactor: Redactor, texts: Seq<Seq<char>>) -> Redactor
    decreases texts.len(),
{
    if texts.len() == 0 {
        redactor
    } else {
        after_all(redactor, texts.drop_last()).after(texts.last())
    }
}

/// What is said of a build and its run.
pub open spec fn tells_build(
    r: BuildInfo,
    build: BuildFacts,
    command: Vec<String>,
    rust_log: Option<String>,
    effective_uid: u32,
    under_sudo: bool,
    redactor: Redactor,
) -> bool {
    &&& r.version@ == build.version@
    &&& r.arch@ == build.arch@
    &&& text_of(r.rustc) == text_of(build.rustc)
    &&& r.features@.map_values(|s: &'static str| s@) == feature_names(
        build.capture_fixture,
        build.ebpf,
        build.integration,
    )
    &&& string_views(r.command@) == all_masked(redactor, string_views(command@))
    &&& r.effective_uid == effective_uid
    &&& r.running_as_root == (effective_uid == 0)
    &&& r.under_sudo == under_sudo
    &&& text_of(r.rust_log) == text_of(rust_log)
}

/// The build, and the command line with home paths rewritten.
pub fn collect_build(
    build: BuildFacts,
    command: &Vec<String>,
    rust_log: Option<String>,
    effective_uid: u32,
    under_sudo: bool,
    redactor: &mut Redactor,
) -> (r: BuildInfo)
    ensures
        tells_build(r, build, *command, rust_log, effective_uid, under_sudo, *old(redactor)),
        *final(redactor) == after_all(*old(redactor), string_views(command@)),
{
    let mut words: Vec<String> = Vec::new();
    let ghost args = string_views(command@);
    let ghost start = *redactor;
    let mut i: usize = 0;
    while i < command.len()
        invariant
            i <= command@.len(),
            args == string_views(command@),
            words@.len() == i,
            forall|j: int| 0 <= j < i ==> (#[trigger] words@[j])@ == start.masks(args[j]).text,
            *redactor == after_all(start, args.take(i as int)),
            redactor.home == start.home,
            redactor.user_name == start.user_name,
        decreases command@.len() - i,
    {
        assert(args.take(i + 1).drop_last() =~= args.take(i as int));
        assert(args[i as int] == command@[i as int]@);
        let masked = redactor.text(command[i].as_str());
        words.push(masked);
        i = i + 1;
    }
    assert(args.take(args.len() as int) =~= args);
    assert(string_views(words@) =~= all_masked(start, args));
    BuildInfo {
        version: build.version,
        features: enabled_features(build.capture_fixture, build.ebpf, build.integration),
        arch: build.arch,
        rustc: build.rustc,
        command: words,
        effective_uid,
        running_as_root: effective_uid == 0,
        under_sudo,
        rust_log,
    }
}

/// The first line of a tool's output, trimmed; none when it says nothing.
pub open spec fn first_answer(output: Seq<u8>) -> Option<Seq<char>> {
    let all = lines_of(lossy_text(output));
    if all.len() > 0 && trimmed(all[0]).len() > 0 {
        Some(trimmed(all[0]))
    } else {
        None
    }
}

/// `systemd-detect-virt`'s first output line (`none` on bare metal), from
/// what it printed; `None` when the tool could not be run.
pub fn detect_virtualization(output: Option<&Vec<u8>>) -> (r: Option<String>)
    ensures
        text_of(r) == (match output {
            Some(bytes) => first_answer(bytes@),
            None => None,
        }),
{
    match output {
        None => None,
        Some(bytes) => {
            let text = decode_lossy(bytes);
            let all = lines(&to_chars(text.as_str()));
            assert(char_views(all@) == lines_of(text@));
            if all.len() == 0 {
                return None;
            }
            let first = trim(&all[0]);
            if first.len() == 0 {
                return None;
            }
            Some(from_chars(&first))
        },
    }
}

/// Whether a lower-case line mentions USB, a host controller, Thunderbolt, a
/// hub or usbmon.
pub open spec fn has_keyword(line: Seq<char>) -> bool {
    occurs(line, "usb"@) || occurs(line, "xhci"@) || occurs(line, "ehci"@) || occurs(line, "ohci"@) || occurs(
        line,
        "dwc"@,
    ) || occurs(line, "thunderbolt"@) || occurs(line, "hub"@) || occurs(line, "usbmon"@)
}

/// The lines that have a keyword, whatever their case, each with a newline.
pub open spec fn keyword_lines(lines: Seq<Seq<char>>) -> Seq<char>
    decreases lines.len(),
{
    if lines.len() == 0 {
        Seq::empty()
    } else if has_keyword(lowercased(lines.last())) {
        keyword_lines(lines.drop_last()) + lines.last().push('\n')
    } else {
        keyword_lines(lines.drop_last())
    }
}

fn mentions_usb(line: &Vec<char>) -> (r: bool)
    ensures
        r == has_keyword(line@),
{
    contains(line, &to_chars("usb")) || contains(line, &to_chars("xhci")) || contains(line, &to_chars("ehci"))
        || contains(line, &to_chars("ohci")) || contains(line, &to_chars("dwc")) || contains(
        line,
        &to_chars("thunderbolt"),
    ) || contains(line, &to_chars("hub")) || contains(line, &to_chars("usbmon"))
}

/// Keeps the lines that mention USB, a host controller, Thunderbolt, a hub,
/// or usbmon (case-insensitive), whole. Host identity never appears on those
/// lines except a USB network adapter's MAC, which the caller masks with
/// [`Redactor::mac_addresses`].
pub fn filter_dmesg(text: &str) -> (r: String)
    ensures
        r@ == keyword_lines(lines_of(text@)),
{
    let all = lines(&to_chars(text));
    let ghost views = char_views(all@);
    let mut out: Vec<char> = Vec::new();
    let mut i: usize = 0;
    while i < all.len()
        invariant
            i <= all@.len(),
            views == char_views(all@),
            out@ == keyword_lines(views.take(i as int)),
        decreases all@.len() - i,
    {
        assert(views.take(i + 1).drop_last() =~= views.take(i as int));
        assert(views[i as int] == all@[i as int]@);
        let lower = lowercase(from_chars(&all[i]).as_str());
        if mentions_usb(&to_chars(lower.as_str())) {
            let ghost before = out@;
            extend(&mut out, &all[i]);
            out.push('\n');
            assert(out@ =~= before + views[i as int].push('\n'));
        }
        i = i + 1;
    }
    assert(views.take(views.len() as int) =~= views);
    from_chars(&out)
}

/// How a command ended.
pub enum CommandRun {
    /// It could not be started.
    NotStarted(String),
    /// It ended without success: its status in words, and what it complained.
    Failed { status: String, stderr: Vec<u8> },
    /// It succeeded, with this output.
    Output(Vec<u8>),
}

/// The filtered kernel log from a run of `dmesg`. `Err` carries the reason
/// (the tool is missing, or the kernel restricts the log to root) for a note.
pub fn run_dmesg(run: &CommandRun) -> (r: Result<String, String>)
    ensures
        match *run {
            CommandRun::NotStarted(e) => r matches Err(text) && text@ == "could not run dmesg: "@ + e@,
            CommandRun::Failed { status, stderr } => r matches Err(text) && text@ == "dmesg exited with "@ + status@
                + ": "@ + trimmed(lossy_text(stderr@)),
            CommandRun::Output(bytes) => r matches Ok(text) && text@ == keyword_lines(lines_of(lossy_text(bytes@))),
        },
{
    match run {
        CommandRun::NotStarted(e) => {
            let mut text = to_chars("could not run dmesg: ");
            extend_str(&mut text, e.as_str());
            Err(from_chars(&text))
        },
        CommandRun::Failed { status, stderr } => {
            let mut text = to_chars("dmesg exited with ");
            extend_str(&mut text, status.as_str());
            extend_str(&mut text, ": ");
            extend(&mut text, &trim(&to_chars(decode_lossy(stderr).as_str())));
            Err(from_chars(&text))
        },
        CommandRun::Output(bytes) => Ok(filter_dmesg(decode_lossy(bytes).as_str())),
    }
}

/// What is known of the configuration.
#[derive(Debug)]
pub struct ConfigInfo {
    /// The resolved config directory as `~/…`.
    pub dir: Option<String>,
    pub dir_mode_octal: Option<String>,
    pub preferences_path: Option<String>,
    /// `"home resolved to ~ (sudo invoker)"` or `"not under sudo"`.
    pub sudo_resolution: &'static str,
    /// File bodies, redacted, written as their own files by the bundle writer
    /// rather than inlined into `config.toml`.
    pub preferences: Option<String>,
    pub internal_devices: Option<String>,
}

/// What was read of the configuration directory.
pub struct ConfigReads {
    pub dir_mode: Result<u32, String>,
    pub preferences: Result<String, String>,
    pub internal_devices: Result<String, String>,
}

/// The preferences file: the one that was given, else the one in `dir`.
pub open spec fn preferences_in(dir: Seq<char>, file: Option<Seq<char>>) -> Seq<char> {
    match file {
        Some(f) => f,
        None => joined(dir, "preferences.toml"@),
    }
}

/// The preferences file and the internal-devices file to read for a config
/// directory.
pub fn config_files(dir: &str, preferences_file: Option<&str>) -> (r: (String, String))
    ensures
        r.0@ == preferences_in(dir@, opt_view(preferences_file)),
        r.1@ == joined(dir@, "internal-devices.toml"@),
{
    let preferences = match preferences_file {
        Some(f) => f.to_owned(),
        None => from_chars(&join_path(&to_chars(dir), &to_chars("preferences.toml"))),
    };
    (preferences, from_chars(&join_path(&to_chars(dir), &to_chars("internal-devices.toml"))))
}

/// The note about a read that failed.
pub open spec fn failed_read(item: Seq<char>, error: Option<Seq<char>>) -> Seq<NoteFacts> {
    match error {
        Some(e) => seq![NoteFacts { item, reason: e }],
        None => Seq::empty(),
    }
}

/// Why a read failed.
pub open spec fn error_of<T>(r: Result<T, String>) -> Option<Seq<char>> {
    match r {
        Ok(_) => None,
        Err(e) => Some(e@),
    }
}

/// A file's body as the redactor rewrites it.
pub open spec fn body_masked(redactor: Redactor, body: Result<String, String>) -> Option<Seq<char>> {
    match body {
        Ok(text) => Some(redactor.masks(text@).text),
        Err(_) => None,
    }
}

/// The redactor once it has rewritten a file's body.
pub open spec fn after_body(redactor: Redactor, body: Result<String, String>) -> Redactor {
    match body {
        Ok(text) => redactor.after(text@),
        Err(_) => redactor,
    }
}

fn mask_body(body: &Result<String, String>, item: &str, redactor: &mut Redactor, said: &mut Vec<Note>) -> (r: Option<
    String,
>)
    ensures
        text_of(r) == body_masked(*old(redactor), *body),
        *final(redactor) == after_body(*old(redactor), *body),
        notes(final(said)@) == notes(old(said)@) + failed_read(item@, error_of(*body)),
{
    match body {
        Ok(text) => {
            assert(notes(said@) + Seq::<NoteFacts>::empty() =~= notes(said@));
            Some(redactor.text(text.as_str()))
        },
        Err(e) => {
            tell(said, item, e.as_str());
            None
        },
    }
}

/// The redactor once it has rewritten the configuration.
pub open spec fn after_config(
    redactor: Redactor,
    dir: Option<Seq<char>>,
    file: Option<Seq<char>>,
    reads: ConfigReads,
) -> Redactor {
    match dir {
        None => redactor,
        Some(d) => after_body(after_body(redactor, reads.preferences), reads.internal_devices).after(d).after(
            preferences_in(d, file),
        ),
    }
}

/// What is noted about a configuration.
pub open spec fn config_notes(dir: Option<Seq<char>>, reads: ConfigReads) -> Seq<NoteFacts> {
    match dir {
        None => seq![NoteFacts { item: "config directory"@, reason: "could not be resolved (HOME is not set)"@ }],
        Some(_) => failed_read("config directory"@, error_of(reads.dir_mode)) + failed_read(
            "preferences.toml"@,
            error_of(reads.preferences),
        ) + failed_read("internal-devices.toml"@, error_of(reads.internal_devices)),
    }
}

/// What is said of a configuration, and what is noted.
pub open spec fn tells_config(
    r: ConfigInfo,
    said: Seq<NoteFacts>,
    dir: Option<Seq<char>>,
    file: Option<Seq<char>>,
    reads: ConfigReads,
    under_sudo: bool,
    redactor: Redactor,
) -> bool {
    &&& r.sudo_resolution@ == (if under_sudo {
        "home resolved to ~ (sudo invoker)"@
    } else {
        "not under sudo"@
    })
    &&& match dir {
        None => {
            &&& r.dir is None && r.dir_mode_octal is None && r.preferences_path is None
            &&& r.preferences is None && r.internal_devices is None
        },
        Some(d) => {
            &&& text_of(r.dir) == Some(redactor.masks(d).text)
            &&& text_of(r.dir_mode_octal) == (match reads.dir_mode {
                Ok(mode) => Some(octal4(mode as nat)),
                Err(_) => None,
            })
            &&& text_of(r.preferences_path) == Some(redactor.masks(preferences_in(d, file)).text)
            &&& text_of(r.preferences) == body_masked(redactor, reads.preferences)
            &&& text_of(r.internal_devices) == body_masked(redactor, reads.internal_devices)
        },
    }
    &&& said == config_notes(dir, reads)
}

/// The configuration directory, its mode and its files, redacted, from what
/// was read of them ([`config_files`]). What could not be read is noted.
pub fn collect_config(
    config_dir: Option<&str>,
    preferences_file: Option<&str>,
    reads: &ConfigReads,
    under_sudo: bool,
    redactor: &mut Redactor,
) -> (r: (ConfigInfo, Vec<Note>))
    ensures
        tells_config(r.0, notes(r.1@), opt_view(config_dir), opt_view(preferences_file), *reads, under_sudo, *old(redactor)),
        *final(redactor) == after_config(
            *old(redactor),
            opt_view(config_dir),
            opt_view(preferences_file),
            *reads,
        ),
{
    let mut said: Vec<Note> = Vec::new();
    assert(notes(said@) =~= Seq::<NoteFacts>::empty());
    let sudo_resolution = if under_sudo {
        "home resolved to ~ (sudo invoker)"
    } else {
        "not under sudo"
    };
    let dir = match config_dir {
        Some(dir) => dir,
        None => {
            tell(&mut said, "config directory", "could not be resolved (HOME is not set)");
            return (
                ConfigInfo {
                    dir: None,
                    dir_mode_octal: None,
                    preferences_path: None,
                    sudo_resolution,
                    preferences: None,
                    internal_devices: None,
                },
                said,
            );
        },
    };
    let dir_mode_octal = match &reads.dir_mode {
        Ok(mode) => Some(from_chars(&to_octal4(*mode))),
        Err(e) => {
            tell(&mut said, "config directory", e.as_str());
            None
        },
    };
    let preferences = mask_body(&reads.preferences, "preferences.toml", redactor, &mut said);
    let internal_devices = mask_body(&reads.internal_devices, "internal-devices.toml", redactor, &mut said);
    let (file, _) = config_files(dir, preferences_file);
    let shown = redactor.path(dir);
    let shown_file = redactor.path(file.as_str());
    (
        ConfigInfo {
            dir: Some(shown),
            dir_mode_octal,
            preferences_path: Some(shown_file),
            sudo_resolution,
            preferences,
            internal_devices,
        },
        said,
    )
}

/// What is known of the terminal.
#[derive(Debug)]
pub struct TerminalInfo {
    pub term: Option<String>,
    pub colorterm: Option<String>,
    pub lang: Option<String>,
    pub lc_all: Option<String>,
    pub cols: Option<u16>,
    pub rows: Option<u16>,
    pub stdout_is_tty: bool,
    pub stdin_is_tty: bool,
    /// Whether an ssh marker variable is set; its value is never recorded.
    pub ssh_present: bool,
    /// The synchronized-output decision: `supported`, `unsupported`, or a
    /// `not probed: …` reason.
    pub sync_mode: String,
}

/// What to do about the synchronized-output handshake.
#[derive(Debug, Clone, Copy, PartialEq, Eq)]
pub enum SyncStep {
    /// Nothing is asked; this is what is recorded.
    Settled(&'static str),
    /// Ask the terminal.
    Probe,
}

/// Whether the handshake runs: only when both stdin and stdout are terminals
/// and the session is local.
pub fn sync_step(stdin_is_tty: bool, stdout_is_tty: bool, remote: bool) -> (r: SyncStep)
    ensures
        match r {
            SyncStep::Settled(mode) => mode@ == (if !(stdin_is_tty && stdout_is_tty) {
                "not probed: stdin or stdout is not a terminal"@
            } else {
                "not probed: remote session, assumed unsupported"@
            }),
            SyncStep::Probe => true,
        },
        r is Probe <==> stdin_is_tty && stdout_is_tty && !remote,
{
    if !(stdin_is_tty && stdout_is_tty) {
        SyncStep::Settled("not probed: stdin or stdout is not a terminal")
    } else if remote {
        SyncStep::Settled("not probed: remote session, assumed unsupported")
    } else {
        SyncStep::Probe
    }
}

/// What is recorded of the terminal's answer.
pub fn sync_answer(supported: bool) -> (r: &'static str)
    ensures
        r@ == (if supported {
            "supported"@
        } else {
            "unsupported"@
        }),
{
    if supported {
        "supported"
    } else {
        "unsupported"
    }
}

/// A variable is set, and not empty.
pub open spec fn is_set(value: Option<String>) -> bool {
    value matches Some(v) && v@.len() > 0
}

/// The environment answers whether a variable is set.
pub open spec fn answers<F: Fn(&str) -> Option<String>>(env: F, name: &str, set: bool) -> bool {
    exists|value: Option<String>| #[trigger] call_ensures(env, (name,), value) && is_set(value) == set
}

/// Whether the facts are what the environment and the terminal say.
pub open spec fn tells_terminal<F: Fn(&str) -> Option<String>>(
    r: TerminalInfo,
    env: F,
    size: Option<(u16, u16)>,
    stdout_is_tty: bool,
    stdin_is_tty: bool,
    sync_mode: Seq<char>,
) -> bool {
    &&& call_ensures(env, ("TERM",), r.term)
    &&& call_ensures(env, ("COLORTERM",), r.colorterm)
    &&& call_ensures(env, ("LANG",), r.lang)
    &&& call_ensures(env, ("LC_ALL",), r.lc_all)
    &&& r.cols == (match size {
        Some(s) => Some(s.0),
        None => None,
    })
    &&& r.rows == (match size {
        Some(s) => Some(s.1),
        None => None,
    })
    &&& r.stdout_is_tty == stdout_is_tty
    &&& r.stdin_is_tty == stdin_is_tty
    &&& r.ssh_present ==> answers(env, "SSH_TTY", true) || answers(env, "SSH_CONNECTION", true) || answers(
        env,
        "SSH_CLIENT",
        true,
    )
    &&& !r.ssh_present ==> answers(env, "SSH_TTY", false) && answers(env, "SSH_CONNECTION", false) && answers(
        env,
        "SSH_CLIENT",
        false,
    )
    &&& r.sync_mode@ == sync_mode
}

fn allowed<F: Fn(&str) -> Option<String>>(env: &F, name: &str) -> (r: Option<String>)
    requires
        is_allowlisted(name@) ==> call_requires(env, (name,)),
    ensures
        if is_allowlisted(name@) {
            call_ensures(*env, (name,), r)
        } else {
            r is None
        },
{
    if Redactor::env_allowlisted(name) {
        env(name)
    } else {
        None
    }
}

/// The terminal's variables, size and state. `env` answers each variable
/// lookup. A name outside the allowlist can never reach the bundle by value.
pub fn collect_terminal<F: Fn(&str) -> Option<String>>(
    env: &F,
    size: Option<(u16, u16)>,
    stdout_is_tty: bool,
    stdin_is_tty: bool,
    sync_mode: &str,
) -> (r: TerminalInfo)
    requires
        call_requires(env, ("TERM",)),
        call_requires(env, ("COLORTERM",)),
        call_requires(env, ("LANG",)),
        call_requires(env, ("LC_ALL",)),
        call_requires(env, ("SSH_TTY",)),
        call_requires(env, ("SSH_CONNECTION",)),
        call_requires(env, ("SSH_CLIENT",)),
    ensures
        tells_terminal(r, *env, size, stdout_is_tty, stdin_is_tty, sync_mode@),
{
    let set = |name: &str| -> (b: bool)
        requires
            call_requires(env, (name,)),
        ensures
            answers(*env, name, b),
        {
            match env(name) {
                Some(v) => !v.as_str().is_empty(),
                None => false,
            }
        };
    TerminalInfo {
        term: allowed(env, "TERM"),
        colorterm: allowed(env, "COLORTERM"),
        lang: allowed(env, "LANG"),
        lc_all: allowed(env, "LC_ALL"),
        cols: match size {
            Some(s) => Some(s.0),
            None => None,
        },
        rows: match size {
            Some(s) => Some(s.1),
            None => None,
        },
        stdout_is_tty,
        stdin_is_tty,
        ssh_present: Redactor::ssh_present(set),
        sync_mode: sync_mode.to_owned(),
    }
}

/// Whether two environments give the same value of a variable.
pub open spec fn agree_on<F: Fn(&str) -> Option<String>, G: Fn(&str) -> Option<String>>(
    env: F,
    other: G,
    name: &str,
) -> bool {
    forall|x: Option<String>, y: Option<String>|
        #![trigger call_ensures(env, (name,), x), call_ensures(other, (name,), y)]
        call_ensures(env, (name,), x) && call_ensures(other, (name,), y) ==> text_of(x) == text_of(y)
}

/// Whether two environments agree on whether a variable is set.
pub open spec fn agree_on_presence<F: Fn(&str) -> Option<String>, G: Fn(&str) -> Option<String>>(
    env: F,
    other: G,
    name: &str,
) -> bool {
    forall|x: Option<String>, y: Option<String>|
        #![trigger call_ensures(env, (name,), x), call_ensures(other, (name,), y)]
        call_ensures(env, (name,), x) && call_ensures(other, (name,), y) ==> is_set(x) == is_set(y)
}

/// The facts of a terminal show the values of four variables and whether one
/// of three ssh markers is set, and nothing else of the environment: the value
/// of a marker never shows, nor does any other variable.
pub proof fn law_a_terminal_shows_its_variables_only<F: Fn(&str) -> Option<String>, G: Fn(&str) -> Option<String>>(
    env: F,
    other: G,
    size: Option<(u16, u16)>,
    stdout_is_tty: bool,
    stdin_is_tty: bool,
    sync_mode: Seq<char>,
    a: TerminalInfo,
    b: TerminalInfo,
)
    requires
        tells_terminal(a, env, size, stdout_is_tty, stdin_is_tty, sync_mode),
        tells_terminal(b, other, size, stdout_is_tty, stdin_is_tty, sync_mode),
        agree_on(env, other, "TERM"),
        agree_on(env, other, "COLORTERM"),
        agree_on(env, other, "LANG"),
        agree_on(env, other, "LC_ALL"),
        agree_on_presence(env, other, "SSH_TTY"),
        agree_on_presence(env, other, "SSH_CONNECTION"),
        agree_on_presence(env, other, "SSH_CLIENT"),
    ensures
        text_of(a.term) == text_of(b.term),
        text_of(a.colorterm) == text_of(b.colorterm),
        text_of(a.lang) == text_of(b.lang),
        text_of(a.lc_all) == text_of(b.lc_all),
        a.cols == b.cols,
        a.rows == b.rows,
        a.stdout_is_tty == b.stdout_is_tty,
        a.stdin_is_tty == b.stdin_is_tty,
        a.ssh_present == b.ssh_present,
        a.sync_mode@ == b.sync_mode@,
{
}

} // verus!
