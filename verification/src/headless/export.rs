//! The run record that leads every file export, so the file describes the
//! run it came from, and what a path names.

pub mod laws;

use vstd::prelude::*;

use crate::number::{decimal, parse_uint, read_uint, to_decimal};
use crate::speed::{to_unit_text, unit_text};
use crate::text::{
    char_views, extend, extend_str, from_chars, join, join_with, slice, starts, starts_with, str_eq, string_views,
    to_chars,
};

verus! {

/// The first line or comment block of a file export.
#[derive(Debug)]
pub struct RunRecord {
    pub record: &'static str,
    pub usbtop_ng: String,
    pub features: Vec<String>,
    pub started_unix: u64,
    pub window_ms: u64,
    pub batch: bool,
    pub filters: Vec<String>,
    pub command: Vec<String>,
    pub backend: String,
    pub kernel: String,
    pub os: String,
    pub arch: String,
    pub buses: Vec<u8>,
}

/// The features a build may have, each with whether it has it, in order.
pub fn enabled_features(capture_fixture: bool, ebpf: bool, integration: bool) -> (r: Vec<&'static str>)
    ensures
        r@.map_values(|s: &'static str| s@) == feature_names(capture_fixture, ebpf, integration),
{
    let mut features: Vec<&'static str> = Vec::new();
    let ghost mut names: Seq<Seq<char>> = Seq::empty();
    assert(features@.map_values(|s: &'static str| s@) =~= names);
    if capture_fixture {
        features.push("capture-fixture");
        proof {
            names = names.push("capture-fixture"@);
        }
        assert(features@.map_values(|s: &'static str| s@) =~= names);
    }
    if ebpf {
        features.push("ebpf");
        proof {
            names = names.push("ebpf"@);
        }
        assert(features@.map_values(|s: &'static str| s@) =~= names);
    }
    if integration {
        features.push("integration");
        proof {
            names = names.push("integration"@);
        }
        assert(features@.map_values(|s: &'static str| s@) =~= names);
    }
    assert(names =~= feature_names(capture_fixture, ebpf, integration));
    features
}

/// The names of the features that are on, in alphabetical order.
pub open spec fn feature_names(capture_fixture: bool, ebpf: bool, integration: bool) -> Seq<Seq<char>> {
    let none: Seq<Seq<char>> = Seq::empty();
    (if capture_fixture {
        seq!["capture-fixture"@]
    } else {
        none
    }) + (if ebpf {
        seq!["ebpf"@]
    } else {
        none
    }) + (if integration {
        seq!["integration"@]
    } else {
        none
    })
}

/// One `# key: value` line.
pub open spec fn record_line(key: Seq<char>, value: Seq<char>) -> Seq<char> {
    "# "@ + key + ": "@ + value + "\n"@
}

/// The items of a list field, joined by spaces.
pub open spec fn spaced(v: Seq<Seq<char>>) -> Seq<char> {
    join_with(v, seq![' '])
}

/// The decimal text of each bus number.
pub open spec fn bus_numbers(v: Seq<u8>) -> Seq<Seq<char>> {
    v.map_values(|b: u8| decimal(b as nat))
}

/// The text header of a file export: one line per field in declaration
/// order, list fields space-joined.
pub open spec fn record_text(run: RunRecord) -> Seq<char> {
    record_line("usbtop_ng"@, run.usbtop_ng@) + record_line("features"@, spaced(string_views(run.features@)))
        + record_line("started_unix"@, decimal(run.started_unix as nat)) + record_line(
        "window_seconds"@,
        unit_text(run.window_ms as nat, 1000),
    ) + record_line(
        "batch"@,
        if run.batch {
            "true"@
        } else {
            "false"@
        },
    ) + record_line("filters"@, spaced(string_views(run.filters@))) + record_line(
        "command"@,
        spaced(string_views(run.command@)),
    ) + record_line("backend"@, run.backend@) + record_line("kernel"@, run.kernel@) + record_line("os"@, run.os@)
        + record_line("arch"@, run.arch@) + record_line("buses"@, spaced(bus_numbers(run.buses@)))
}

fn push_line(out: &mut Vec<char>, key: &str, value: &Vec<char>)
    ensures
        final(out)@ == old(out)@ + record_line(key@, value@),
{
    let mut r = to_chars("# ");
    extend_str(&mut r, key);
    extend_str(&mut r, ": ");
    extend(&mut r, value);
    extend_str(&mut r, "\n");
    extend(out, &r);
}

/// Several strings joined by spaces.
pub fn join_strings(v: &Vec<String>) -> (r: Vec<char>)
    ensures
        r@ == spaced(string_views(v@)),
{
    let mut parts: Vec<Vec<char>> = Vec::new();
    let ghost views = string_views(v@);
    let mut i: usize = 0;
    assert(char_views(parts@) =~= views.take(0));
    while i < v.len()
        invariant
            i <= v.len(),
            views == string_views(v@),
            char_views(parts@) == views.take(i as int),
        decreases v.len() - i,
    {
        let t = to_chars(v[i].as_str());
        let ghost before = char_views(parts@);
        assert(views[i as int] == t@);
        parts.push(t);
        assert(char_views(parts@) =~= before.push(t@));
        assert(views.take(i + 1) =~= views.take(i as int).push(views[i as int]));
        i = i + 1;
    }
    assert(views.take(views.len() as int) =~= views);
    let mut sep: Vec<char> = Vec::new();
    sep.push(' ');
    assert(sep@ =~= seq![' ']);
    join(&parts, &sep)
}

fn join_buses(v: &Vec<u8>) -> (r: Vec<char>)
    ensures
        r@ == spaced(bus_numbers(v@)),
{
    let mut parts: Vec<Vec<char>> = Vec::new();
    let ghost views = bus_numbers(v@);
    let mut i: usize = 0;
    assert(char_views(parts@) =~= views.take(0));
    while i < v.len()
        invariant
            i <= v.len(),
            views == bus_numbers(v@),
            char_views(parts@) == views.take(i as int),
        decreases v.len() - i,
    {
        let t = to_decimal(v[i] as u64);
        let ghost before = char_views(parts@);
        assert(views[i as int] == t@);
        parts.push(t);
        assert(char_views(parts@) =~= before.push(t@));
        assert(views.take(i + 1) =~= views.take(i as int).push(views[i as int]));
        i = i + 1;
    }
    assert(views.take(views.len() as int) =~= views);
    let mut sep: Vec<char> = Vec::new();
    sep.push(' ');
    assert(sep@ =~= seq![' ']);
    join(&parts, &sep)
}

/// The text-mode header of a file export.
pub fn render_run_record_text(run: &RunRecord) -> (r: String)
    ensures
        r@ == record_text(*run),
{
    let mut out: Vec<char> = Vec::new();
    let v = to_chars(run.usbtop_ng.as_str());
    push_line(&mut out, "usbtop_ng", &v);
    assert(out@ =~= record_line("usbtop_ng"@, run.usbtop_ng@));
    let v = join_strings(&run.features);
    push_line(&mut out, "features", &v);
    let v = to_decimal(run.started_unix);
    push_line(&mut out, "started_unix", &v);
    let v = to_unit_text(run.window_ms, 1000);
    push_line(&mut out, "window_seconds", &v);
    let v = if run.batch {
        to_chars("true")
    } else {
        to_chars("false")
    };
    push_line(&mut out, "batch", &v);
    let v = join_strings(&run.filters);
    push_line(&mut out, "filters", &v);
    let v = join_strings(&run.command);
    push_line(&mut out, "command", &v);
    let v = to_chars(run.backend.as_str());
    push_line(&mut out, "backend", &v);
    let v = to_chars(run.kernel.as_str());
    push_line(&mut out, "kernel", &v);
    let v = to_chars(run.os.as_str());
    push_line(&mut out, "os", &v);
    let v = to_chars(run.arch.as_str());
    push_line(&mut out, "arch", &v);
    let v = join_buses(&run.buses);
    push_line(&mut out, "buses", &v);
    from_chars(&out)
}

/// A non-negative descriptor number: an optional sign and digits, where a
/// minus sign only fits zero.
pub open spec fn descriptor_number(s: Seq<char>) -> Option<nat> {
    if s.len() > 0 && s[0] == '-' {
        if s.len() > 1 && s[1] != '+' && read_uint(s.skip(1), 10, 0) is Some {
            Some(0)
        } else {
            None
        }
    } else {
        read_uint(s, 10, i32::MAX as nat)
    }
}

/// The descriptor that a path names, if it names one.
pub open spec fn named_descriptor(path: Seq<char>) -> Option<nat> {
    if path == "/dev/stdout"@ {
        Some(1)
    } else if path == "/dev/stderr"@ {
        Some(2)
    } else if starts(path, "/dev/fd/"@) {
        descriptor_number(path.skip("/dev/fd/"@.len() as int))
    } else {
        None
    }
}

/// `/dev/stdout`, `/dev/stderr` and `/dev/fd/N` name descriptors this process
/// already holds, so the sink duplicates the descriptor instead of opening a
/// path. Only these exact spellings qualify.
pub fn inherited_descriptor(path: &str) -> (r: Option<i32>)
    ensures
        match r {
            Some(fd) => fd >= 0 && named_descriptor(path@) == Some(fd as nat),
            None => named_descriptor(path@) is None,
        },
{
    if str_eq(path, "/dev/stdout") {
        return Some(1);
    }
    if str_eq(path, "/dev/stderr") {
        return Some(2);
    }
    let v = to_chars(path);
    let prefix = to_chars("/dev/fd/");
    if !starts_with(&v, &prefix) {
        return None;
    }
    let rest = slice(&v, prefix.len(), v.len());
    assert(rest@ =~= v@.skip(prefix@.len() as int));
    if rest.len() > 0 && rest[0] == '-' {
        if rest.len() == 1 || rest[1] == '+' {
            return None;
        }
        let digits = slice(&rest, 1, rest.len());
        assert(digits@ =~= rest@.skip(1));
        return match parse_uint(&digits, 10, 0) {
            Some(_) => Some(0),
            None => None,
        };
    }
    match parse_uint(&rest, 10, i32::MAX as u64) {
        Some(n) => Some(n as i32),
        None => None,
    }
}

/// Where reports go: stdout, or a file that was created or truncated at open
/// and led with the run record. The open file itself is held by the caller.
#[derive(Debug)]
pub enum ReportSink {
    Stdout,
    File { path: String, written: usize },
}

/// What to open for a sink.
#[derive(Debug)]
pub enum SinkTarget {
    /// Nothing: reports go to stdout.
    Stdout,
    /// A duplicate of a descriptor this process already holds.
    Descriptor(i32),
    /// The file at the path, created or truncated, never through a symbolic
    /// link.
    Path,
}

/// What to open for an output: `None` is the stdout sink; a path that names an
/// inherited descriptor is a duplicate of it.
pub fn sink_target(output: Option<&str>) -> (r: SinkTarget)
    ensures
        match output {
            None => r is Stdout,
            Some(path) => match named_descriptor(path@) {
                Some(fd) => r matches SinkTarget::Descriptor(n) && n == fd,
                None => r is Path,
            },
        },
{
    match output {
        None => SinkTarget::Stdout,
        Some(path) => match inherited_descriptor(path) {
            Some(fd) => SinkTarget::Descriptor(fd),
            None => SinkTarget::Path,
        },
    }
}

/// The sentence about an output that could not be created. The leaf is blamed
/// only when it really is a link.
pub fn create_failure(path: &str, error: &str, leaf_is_link: bool) -> (r: String)
    ensures
        r@ == "could not create "@ + path@ + ": "@ + (if leaf_is_link {
            "it is a symbolic link, and --output never follows one"@
        } else {
            error@
        }),
{
    let mut v = to_chars("could not create ");
    extend_str(&mut v, path);
    extend_str(&mut v, ": ");
    if leaf_is_link {
        extend_str(&mut v, "it is a symbolic link, and --output never follows one");
    } else {
        extend_str(&mut v, error);
    }
    from_chars(&v)
}

impl ReportSink {
    /// A file sink that nothing was written to yet but the run record.
    pub fn from_open_file(path: &str) -> (r: ReportSink)
        ensures
            r matches ReportSink::File { path: p, written: 0 } && p@ == path@,
    {
        ReportSink::File { path: path.to_owned(), written: 0 }
    }

    /// Takes in that a report was written.
    pub fn wrote(self) -> (r: ReportSink)
        requires
            self matches ReportSink::File { written, .. } ==> written < usize::MAX,
        ensures
            match self {
                ReportSink::Stdout => r is Stdout,
                ReportSink::File { path, written } => r == (ReportSink::File {
                    path,
                    written: (written + 1) as usize,
                }),
            },
    {
        match self {
            ReportSink::Stdout => ReportSink::Stdout,
            ReportSink::File { path, written } => ReportSink::File { path, written: written + 1 },
        }
    }

    /// For a file sink, the count and path for the exit notice; `None` for
    /// stdout, which announces nothing.
    pub fn finish(self) -> (r: Option<(usize, String)>)
        ensures
            match self {
                ReportSink::Stdout => r is None,
                ReportSink::File { path, written } => r == Some((written, path)),
            },
    {
        match self {
            ReportSink::Stdout => None,
            ReportSink::File { path, written } => Some((written, path)),
        }
    }
}

} // verus!
