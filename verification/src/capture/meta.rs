//! Coverage tags, computed from a replayed report, and what `meta.toml` says.
//! Only `sources`, `controllers` and `speed_classes` are read back by the
//! harness; the rest is human-facing documentation.

use vstd::prelude::*;

use crate::diag::collect::{or_default, or_empty, os_pretty_name_from, pretty_name, HostRoots};
use crate::diag::files::{read_at, value_at};
use crate::fixture_replay::FixtureSource;
use crate::headless::{BusLine, BusReport, DeviceLine, DeviceReport, EndpointLine, Report};
use crate::order::{
    lemma_lex_irreflexive, lemma_lex_transitive, lemma_rank, lemma_sorted, lex_le, lex_lt, rank, sort,
};
use crate::speed::{to_unit_text, unit_text};
use crate::sysfs::{read_text, text_named};
use crate::table::names_ascend;
use crate::text::{from_chars, str_eq, string_views};

verus! {

/// What a report exercises.
#[derive(Debug)]
pub struct CoverageTags {
    pub controllers: Vec<String>,
    pub speed_classes: Vec<String>,
    pub transfer_types: Vec<String>,
}

/// What `meta.toml` says of a freshly captured bundle.
#[derive(Debug)]
pub struct MetaRecord {
    pub board: String,
    pub soc: String,
    pub arch: String,
    pub kernel: String,
    pub os: String,
    pub usbtop_ng_version: String,
    pub stage_id: Option<u32>,
    pub captured_unix: u64,
    /// Kernel-side events lost from the binary source during the capture.
    /// Absent when the source could not report one.
    pub binary_kernel_dropped: Option<u64>,
    pub controllers: Vec<String>,
    pub speed_classes: Vec<String>,
    pub transfer_types: Vec<String>,
    pub sources: Vec<String>,
}

/// The machine a bundle was captured on; empty where nothing could be read.
#[derive(Debug)]
pub struct HostIdentity {
    pub board: String,
    pub soc: String,
    pub arch: String,
    pub kernel: String,
    pub os: String,
}

/// Whether `v` lists what `all` holds, once each and in order.
pub open spec fn is_digest(v: Seq<Seq<char>>, all: Seq<Seq<char>>) -> bool {
    names_ascend(v) && forall|s: Seq<char>| #[trigger] v.contains(s) <==> all.contains(s)
}

/// The texts in order, each once.
pub fn sorted_unique(v: Vec<String>) -> (r: Vec<String>)
    ensures
        is_digest(string_views(r@), string_views(v@)),
{
    let ghost all = string_views(v@);
    let ghost given = v@;
    let ordered = sort(v);
    let ghost whole = string_views(ordered@);
    proof {
        lemma_rank::<String>();
        lemma_sorted(given, rank::<String>());
        assert forall|s: Seq<char>| #[trigger] whole.contains(s) <==> all.contains(s) by {
            broadcast use vstd::seq_lib::group_to_multiset_ensures;

            if whole.contains(s) {
                let i = choose|i: int| 0 <= i < whole.len() && whole[i] == s;
                assert(ordered@[i]@ == s);
                assert(ordered@.contains(ordered@[i]));
                assert(given.to_multiset().count(ordered@[i]) > 0);
                assert(given.contains(ordered@[i]));
                let j = choose|j: int| 0 <= j < given.len() && given[j] == ordered@[i];
                assert(all[j] == s);
            }
            if all.contains(s) {
                let i = choose|i: int| 0 <= i < all.len() && all[i] == s;
                assert(given[i]@ == s);
                assert(given.contains(given[i]));
                assert(ordered@.to_multiset().count(given[i]) > 0);
                assert(ordered@.contains(given[i]));
                let j = choose|j: int| 0 <= j < ordered@.len() && ordered@[j] == given[i];
                assert(whole[j] == s);
            }
        }
        assert forall|i: int, j: int| 0 <= i < j < whole.len() implies lex_le(
            #[trigger] whole[i],
            #[trigger] whole[j],
        ) by {
            assert(rank::<String>()(ordered@[i], ordered@[j]));
        }
    }
    let mut r: Vec<String> = Vec::new();
    let mut i: usize = 0;
    while i < ordered.len()
        invariant
            i <= ordered@.len(),
            whole == string_views(ordered@),
            forall|a: int, b: int|
                0 <= a < b < whole.len() ==> lex_le(#[trigger] whole[a], #[trigger] whole[b]),
            is_digest(string_views(r@), whole.take(i as int)),
            i == 0 ==> r@.len() == 0,
            i > 0 ==> r@.len() > 0 && string_views(r@).last() == whole[i - 1],
        decreases ordered@.len() - i,
    {
        let ghost before = string_views(r@);
        let n = r.len();
        assert(whole[i as int] == ordered@[i as int]@);
        let again = if n > 0 {
            str_eq(r[n - 1].as_str(), ordered[i].as_str())
        } else {
            false
        };
        if n > 0 {
            assert(before.last() == r@[n - 1]@);
        }
        let ghost next = whole.take(i + 1);
        proof {
            assert forall|s: Seq<char>| #[trigger] next.contains(s) <==> whole.take(i as int).contains(s) || s
                == whole[i as int] by {
                if next.contains(s) {
                    let k = choose|k: int| 0 <= k < next.len() && next[k] == s;
                    if k < i {
                        assert(whole.take(i as int)[k] == s);
                    }
                }
                if whole.take(i as int).contains(s) {
                    let k = choose|k: int| 0 <= k < i && whole.take(i as int)[k] == s;
                    assert(next[k] == s);
                }
                if s == whole[i as int] {
                    assert(next[i as int] == s);
                }
            }
        }
        if again {
            proof {
                assert(before.contains(whole[i as int])) by {
                    assert(before[before.len() - 1] == whole[i as int]);
                }
                assert(is_digest(before, next));
            }
        } else {
            r.push(ordered[i].clone());
            proof {
                let after = string_views(r@);
                let x = whole[i as int];
                assert(after =~= before.push(x));
                assert forall|a: int, b: int| 0 <= a < b < after.len() implies lex_lt(
                    #[trigger] after[a],
                    #[trigger] after[b],
                ) by {
                    if b < before.len() {
                        assert(after[a] == before[a] && after[b] == before[b]);
                    } else {
                        let last = before.last();
                        assert(lex_le(last, x)) by {
                            assert(lex_le(whole[i - 1], whole[i as int]));
                        }
                        assert(lex_lt(last, x));
                        if a < before.len() - 1 {
                            assert(lex_lt(before[a], before[before.len() - 1]));
                            crate::order::lemma_lex_transitive(before[a], last, x);
                        }
                    }
                }
                assert forall|s: Seq<char>| #[trigger] after.contains(s) <==> next.contains(s) by {
                    if after.contains(s) {
                        let k = choose|k: int| 0 <= k < after.len() && after[k] == s;
                        if k < before.len() {
                            assert(before[k] == s);
                            assert(before.contains(s));
                        }
                    }
                    if next.contains(s) {
                        if before.contains(s) {
                            let k = choose|k: int| 0 <= k < before.len() && before[k] == s;
                            assert(after[k] == s);
                        } else {
                            assert(after[before.len() as int] == s);
                        }
                    }
                }
            }
        }
        i = i + 1;
    }
    assert(whole.take(whole.len() as int) =~= whole);
    assert forall|s: Seq<char>| #[trigger] string_views(r@).contains(s) <==> all.contains(s) by {
        assert(whole.contains(s) <==> all.contains(s));
        assert(whole.take(whole.len() as int).contains(s) <==> whole.contains(s));
    }
    r
}

/// The controllers that buses name, in order.
pub open spec fn controllers_of(buses: Seq<BusLine>) -> Seq<Seq<char>>
    decreases buses.len(),
{
    if buses.len() == 0 {
        Seq::empty()
    } else {
        match buses.last().controller {
            Some(c) => controllers_of(buses.drop_last()).push(c),
            None => controllers_of(buses.drop_last()),
        }
    }
}

/// The speeds that devices have, in megabits per second: whole numbers bare,
/// others with their fraction, unknown ones left out.
pub open spec fn device_speeds(devices: Seq<DeviceLine>) -> Seq<Seq<char>>
    decreases devices.len(),
{
    if devices.len() == 0 {
        Seq::empty()
    } else if devices.last().speed.bps > 0 {
        device_speeds(devices.drop_last()).push(unit_text(devices.last().speed.bps as nat, 1_000_000))
    } else {
        device_speeds(devices.drop_last())
    }
}

/// The speeds that the devices of buses have.
pub open spec fn speeds_of(buses: Seq<BusLine>) -> Seq<Seq<char>>
    decreases buses.len(),
{
    if buses.len() == 0 {
        Seq::empty()
    } else {
        speeds_of(buses.drop_last()) + device_speeds(buses.last().devices)
    }
}

/// The transfer types of endpoints.
pub open spec fn endpoint_types(endpoints: Seq<EndpointLine>) -> Seq<Seq<char>> {
    endpoints.map_values(|e: EndpointLine| e.transfer_type)
}

/// The transfer types of devices' endpoints.
pub open spec fn device_types(devices: Seq<DeviceLine>) -> Seq<Seq<char>>
    decreases devices.len(),
{
    if devices.len() == 0 {
        Seq::empty()
    } else {
        device_types(devices.drop_last()) + endpoint_types(devices.last().endpoints)
    }
}

/// The transfer types that buses carry.
pub open spec fn types_of(buses: Seq<BusLine>) -> Seq<Seq<char>>
    decreases buses.len(),
{
    if buses.len() == 0 {
        Seq::empty()
    } else {
        types_of(buses.drop_last()) + device_types(buses.last().devices)
    }
}

fn add_speeds(devices: &Vec<DeviceReport>, out: &mut Vec<String>)
    ensures
        string_views(final(out)@) == string_views(old(out)@) + device_speeds(
            devices@.map_values(|d: DeviceReport| d@),
        ),
{
    let ghost lines = devices@.map_values(|d: DeviceReport| d@);
    let ghost start = string_views(out@);
    let mut i: usize = 0;
    assert(lines.take(0) =~= Seq::<DeviceLine>::empty());
    assert(start + device_speeds(lines.take(0)) =~= start);
    while i < devices.len()
        invariant
            i <= devices@.len(),
            lines == devices@.map_values(|d: DeviceReport| d@),
            string_views(out@) == start + device_speeds(lines.take(i as int)),
        decreases devices@.len() - i,
    {
        assert(lines.take(i + 1).drop_last() =~= lines.take(i as int));
        assert(lines[i as int] == devices@[i as int]@);
        let bps = devices[i].speed.bps;
        if bps > 0 {
            let ghost before = string_views(out@);
            let text = from_chars(&to_unit_text(bps, 1_000_000));
            let ghost view = text@;
            out.push(text);
            assert(string_views(out@) =~= before.push(view));
            assert(before.push(view) =~= start + device_speeds(lines.take(i as int)).push(view));
        }
        i = i + 1;
    }
    assert(lines.take(lines.len() as int) =~= lines);
}

fn add_types(devices: &Vec<DeviceReport>, out: &mut Vec<String>)
    ensures
        string_views(final(out)@) == string_views(old(out)@) + device_types(
            devices@.map_values(|d: DeviceReport| d@),
        ),
{
    let ghost lines = devices@.map_values(|d: DeviceReport| d@);
    let ghost start = string_views(out@);
    let mut i: usize = 0;
    assert(lines.take(0) =~= Seq::<DeviceLine>::empty());
    assert(start + device_types(lines.take(0)) =~= start);
    while i < devices.len()
        invariant
            i <= devices@.len(),
            lines == devices@.map_values(|d: DeviceReport| d@),
            string_views(out@) == start + device_types(lines.take(i as int)),
        decreases devices@.len() - i,
    {
        assert(lines.take(i + 1).drop_last() =~= lines.take(i as int));
        assert(lines[i as int] == devices@[i as int]@);
        let endpoints = &devices[i].endpoints;
        let ghost types = endpoint_types(lines[i as int].endpoints);
        let ghost before = string_views(out@);
        let mut k: usize = 0;
        assert(before + types.take(0) =~= before);
        while k < endpoints.len()
            invariant
                k <= endpoints@.len(),
                types.len() == endpoints@.len(),
                forall|j: int| 0 <= j < types.len() ==> #[trigger] types[j] == endpoints@[j].transfer_type@,
                string_views(out@) == before + types.take(k as int),
            decreases endpoints@.len() - k,
        {
            let ghost so_far = string_views(out@);
            out.push(endpoints[k].transfer_type.to_owned());
            assert(string_views(out@) =~= so_far.push(types[k as int]));
            assert(types.take(k + 1) =~= types.take(k as int).push(types[k as int]));
            k = k + 1;
        }
        assert(types.take(types.len() as int) =~= types);
        assert(before + types =~= start + (device_types(lines.take(i as int)) + types));
        i = i + 1;
    }
    assert(lines.take(lines.len() as int) =~= lines);
}

/// The coverage a report exercises: distinct controllers, distinct device
/// speeds (Mbps, skipping unknown ones; a fraction such as 1.5 is kept) and
/// distinct endpoint transfer types. Each list is sorted, so `meta.toml` is
/// stable across runs.
pub fn compute_coverage_tags(report: &Report) -> (r: CoverageTags)
    ensures
        ({
            let buses = report.buses@.map_values(|b: BusReport| b@);
            &&& is_digest(string_views(r.controllers@), controllers_of(buses))
            &&& is_digest(string_views(r.speed_classes@), speeds_of(buses))
            &&& is_digest(string_views(r.transfer_types@), types_of(buses))
        }),
{
    let ghost buses = report.buses@.map_values(|b: BusReport| b@);
    let mut controllers: Vec<String> = Vec::new();
    let mut speeds: Vec<String> = Vec::new();
    let mut types: Vec<String> = Vec::new();
    let mut i: usize = 0;
    assert(buses.take(0) =~= Seq::<BusLine>::empty());
    assert(string_views(controllers@) =~= Seq::<Seq<char>>::empty());
    assert(string_views(speeds@) =~= Seq::<Seq<char>>::empty());
    assert(string_views(types@) =~= Seq::<Seq<char>>::empty());
    while i < report.buses.len()
        invariant
            i <= report.buses@.len(),
            buses == report.buses@.map_values(|b: BusReport| b@),
            string_views(controllers@) == controllers_of(buses.take(i as int)),
            string_views(speeds@) == speeds_of(buses.take(i as int)),
            string_views(types@) == types_of(buses.take(i as int)),
        decreases report.buses@.len() - i,
    {
        assert(buses.take(i + 1).drop_last() =~= buses.take(i as int));
        assert(buses[i as int] == report.buses@[i as int]@);
        let bus = &report.buses[i];
        if let Some(c) = &bus.controller {
            let ghost before = string_views(controllers@);
            controllers.push(c.clone());
            assert(string_views(controllers@) =~= before.push(c@));
        }
        add_speeds(&bus.devices, &mut speeds);
        add_types(&bus.devices, &mut types);
        i = i + 1;
    }
    assert(buses.take(buses.len() as int) =~= buses);
    CoverageTags {
        controllers: sorted_unique(controllers),
        speed_classes: sorted_unique(speeds),
        transfer_types: sorted_unique(types),
    }
}

/// The tags of several sources.
pub open spec fn source_tags(sources: Seq<FixtureSource>) -> Seq<Seq<char>> {
    sources.map_values(|s: FixtureSource| s.name())
}

/// What `meta.toml` says of a freshly captured bundle: host identity plus the
/// coverage tags and the sources captured. `binary_kernel_dropped` is the
/// kernel's drop count for the binary source, when it reported one.
pub fn build_meta(
    report: &Report,
    sources: &Vec<FixtureSource>,
    stage_id: Option<u32>,
    binary_kernel_dropped: Option<u64>,
    host: HostIdentity,
    version: &str,
    captured_unix: u64,
) -> (r: MetaRecord)
    ensures
        r.board == host.board,
        r.soc == host.soc,
        r.arch == host.arch,
        r.kernel == host.kernel,
        r.os == host.os,
        r.usbtop_ng_version@ == version@,
        r.stage_id == stage_id,
        r.captured_unix == captured_unix,
        r.binary_kernel_dropped == binary_kernel_dropped,
        ({
            let buses = report.buses@.map_values(|b: BusReport| b@);
            &&& is_digest(string_views(r.controllers@), controllers_of(buses))
            &&& is_digest(string_views(r.speed_classes@), speeds_of(buses))
            &&& is_digest(string_views(r.transfer_types@), types_of(buses))
        }),
        string_views(r.sources@) == source_tags(sources@),
{
    let tags = compute_coverage_tags(report);
    let mut names: Vec<String> = Vec::new();
    let mut i: usize = 0;
    let ghost all = source_tags(sources@);
    assert(string_views(names@) =~= all.take(0));
    while i < sources.len()
        invariant
            i <= sources@.len(),
            all == source_tags(sources@),
            string_views(names@) == all.take(i as int),
        decreases sources@.len() - i,
    {
        let ghost before = string_views(names@);
        names.push(sources[i].tag().to_owned());
        assert(string_views(names@) =~= before.push(all[i as int]));
        assert(all.take(i + 1) =~= all.take(i as int).push(all[i as int]));
        i = i + 1;
    }
    assert(all.take(all.len() as int) =~= all);
    MetaRecord {
        board: host.board,
        soc: host.soc,
        arch: host.arch,
        kernel: host.kernel,
        os: host.os,
        usbtop_ng_version: version.to_owned(),
        stage_id,
        captured_unix,
        binary_kernel_dropped,
        controllers: tags.controllers,
        speed_classes: tags.speed_classes,
        transfer_types: tags.transfer_types,
        sources: names,
    }
}

/// The machine, from the trees that were read of it: the board is the
/// device-tree model, else DMI's product name.
pub fn gather_host_identity(roots: &HostRoots, arch: &str) -> (r: HostIdentity)
    ensures
        r.board@ == (match value_at(roots.device_tree_root@, "model"@) {
            Some(model) => model,
            None => or_empty(value_at(roots.dmi_root@, "product_name"@)),
        }),
        r.soc@ == or_empty(value_at(roots.device_tree_root@, "compatible"@)),
        r.arch@ == arch@,
        r.kernel@ == or_empty(value_at(roots.proc_root@, "sys/kernel/osrelease"@)),
        r.os@ == (match text_named(roots.etc_root@, "os-release"@) {
            Some(text) => or_empty(pretty_name(text)),
            None => Seq::empty(),
        }),
{
    let board = match read_at(roots.device_tree_root, "model") {
        Some(model) => model,
        None => or_default(read_at(roots.dmi_root, "product_name")),
    };
    let os = match read_text(roots.etc_root, "os-release") {
        Some(text) => os_pretty_name_from(text.as_str()),
        None => None,
    };
    HostIdentity {
        board,
        soc: or_default(read_at(roots.device_tree_root, "compatible")),
        arch: arch.to_owned(),
        kernel: or_default(read_at(roots.proc_root, "sys/kernel/osrelease")),
        os: or_default(os),
    }
}

/// What a list holds, once each and in order, is one list.
pub proof fn law_a_digest_is_unique(v: Seq<Seq<char>>, w: Seq<Seq<char>>, all: Seq<Seq<char>>)
    requires
        is_digest(v, all),
        is_digest(w, all),
    ensures
        v == w,
{
    assert forall|s: Seq<char>| #[trigger] v.contains(s) <==> w.contains(s) by {
        assert(all.contains(s) == v.contains(s));
        assert(all.contains(s) == w.contains(s));
    }
    lemma_ascending_is_unique(v, w);
}

proof fn lemma_ascending_is_unique(v: Seq<Seq<char>>, w: Seq<Seq<char>>)
    requires
        names_ascend(v),
        names_ascend(w),
        forall|s: Seq<char>| #[trigger] v.contains(s) <==> w.contains(s),
    ensures
        v == w,
    decreases v.len(),
{
    if v.len() == 0 {
        if w.len() > 0 {
            assert(w.contains(w[0]));
            assert(v.contains(w[0]));
        }
        assert(v =~= w);
    } else {
        let (a, b) = (v.last(), w.last());
        assert(v.contains(v[v.len() - 1]));
        assert(w.contains(a));
        assert(w.contains(w[w.len() - 1]));
        assert(v.contains(b));
        let i = choose|i: int| 0 <= i < w.len() && w[i] == a;
        let j = choose|j: int| 0 <= j < v.len() && v[j] == b;
        if a != b {
            assert(lex_lt(w[i], w[w.len() - 1]));
            assert(lex_lt(v[j], v[v.len() - 1]));
            lemma_lex_transitive(a, b, a);
            lemma_lex_irreflexive(a);
        }
        let (vf, wf) = (v.drop_last(), w.drop_last());
        assert forall|s: Seq<char>| #[trigger] vf.contains(s) <==> wf.contains(s) by {
            if vf.contains(s) {
                let k = choose|k: int| 0 <= k < vf.len() && vf[k] == s;
                assert(v[k] == s && v.contains(s));
                assert(lex_lt(v[k], v[v.len() - 1]));
                lemma_lex_irreflexive(a);
                let m = choose|m: int| 0 <= m < w.len() && w[m] == s;
                assert(wf[m] == s);
            }
            if wf.contains(s) {
                let k = choose|k: int| 0 <= k < wf.len() && wf[k] == s;
                assert(w[k] == s && w.contains(s));
                assert(lex_lt(w[k], w[w.len() - 1]));
                lemma_lex_irreflexive(b);
                assert(v.contains(s));
                let m = choose|m: int| 0 <= m < v.len() && v[m] == s;
                assert(vf[m] == s);
            }
        }
        lemma_ascending_is_unique(vf, wf);
        assert(v =~= vf.push(a));
        assert(w =~= wf.push(b));
    }
}

} // verus!
