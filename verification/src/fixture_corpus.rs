//! The committed fixture corpus: which stage directories are bundles, whether
//! every one is well formed, and the binary trace of a seed.

pub mod laws;

use vstd::prelude::*;

use crate::capture::sanitize::HEADER_LEN;
use crate::capture::trace::{claims_payload, is_payload_free, number_of, ByteOrder};
use crate::fixture_replay::{Bundle, FixtureSource, Meta};
use crate::order::{
    chars_lt, lemma_lex_total, lemma_lex_transitive, lemma_sorted_mapped, lex_le, rank, sort, sorted_by, Ranked,
};
use crate::path::{is_name, join_path, joined, parent_parts, parts};
use crate::sysfs::{Content, Node};
use crate::text::{char_views, extend_str, from_chars, starts, starts_with, str_eq, string_views, to_chars};
use crate::usbmon::{TransferType, UrbType, UsbPacket};

verus! {

/// What `{:?}` makes of a string: the string in quotes, with escapes.
pub uninterp spec fn quoted_text(s: Seq<char>) -> Seq<char>;

/// `str`'s `Debug` formatting, a function of its characters. Nothing more is
/// claimed of it.
#[verifier::external_body]
pub(crate) fn quoted(s: &str) -> (r: String)
    ensures
        r@ == quoted_text(s@),
{
    format!("{s:?}")
}

/// What was read of a stage's `meta.toml`.
#[derive(Debug)]
pub enum MetaRead {
    Unreadable(String),
    Malformed(String),
    Parsed(Meta),
}

/// One entry of a host directory.
#[derive(Debug)]
pub struct StageDir {
    pub name: String,
    pub is_dir: bool,
    pub meta: MetaRead,
    pub has_binary_trace: bool,
    pub has_text_trace: bool,
}

/// One entry of the corpus directory.
#[derive(Debug)]
pub struct HostDir {
    pub name: String,
    pub is_dir: bool,
    /// Its entries, or why they could not be listed.
    pub stages: Result<Vec<StageDir>, String>,
}

/// What a `Meta` says.
pub struct MetaFacts {
    pub sources: Seq<Seq<char>>,
    pub controllers: Seq<Seq<char>>,
    pub speed_classes: Seq<Seq<char>>,
}

impl View for Meta {
    type V = MetaFacts;

    open spec fn view(&self) -> MetaFacts {
        MetaFacts {
            sources: string_views(self.sources@),
            controllers: string_views(self.controllers@),
            speed_classes: string_views(self.speed_classes@),
        }
    }
}

/// What a `Bundle` says.
pub struct BundleFacts {
    pub dir: Seq<char>,
    pub meta: MetaFacts,
}

impl View for Bundle {
    type V = BundleFacts;

    open spec fn view(&self) -> BundleFacts {
        BundleFacts { dir: self.dir@, meta: self.meta@ }
    }
}

/// What several bundles say.
pub open spec fn bundle_facts(v: Seq<Bundle>) -> Seq<BundleFacts> {
    v.map_values(|b: Bundle| b@)
}

/// Hosts stand by name.
pub open spec fn by_host_name() -> spec_fn(HostDir, HostDir) -> bool {
    |a: HostDir, b: HostDir| lex_le(a.name@, b.name@)
}

/// Stages stand by name.
pub open spec fn by_stage_name() -> spec_fn(StageDir, StageDir) -> bool {
    |a: StageDir, b: StageDir| lex_le(a.name@, b.name@)
}

/// The bundles among stages: those whose `meta.toml` was read and parsed.
pub open spec fn bundles_among(stages: Seq<StageDir>, host: Seq<char>) -> Seq<BundleFacts>
    decreases stages.len(),
{
    if stages.len() == 0 {
        Seq::empty()
    } else {
        match stages.last().meta {
            MetaRead::Parsed(meta) => bundles_among(stages.drop_last(), host).push(
                (BundleFacts { dir: joined(host, stages.last().name@), meta: meta@ }),
            ),
            _ => bundles_among(stages.drop_last(), host),
        }
    }
}

/// The bundles below hosts in order.
pub open spec fn bundles_below(hosts: Seq<HostDir>, root: Seq<char>) -> Seq<BundleFacts>
    decreases hosts.len(),
{
    if hosts.len() == 0 {
        Seq::empty()
    } else {
        bundles_below(hosts.drop_last(), root) + (match hosts.last().stages {
            Ok(stages) => bundles_among(sorted_by(stages@, by_stage_name()), joined(root, hosts.last().name@)),
            Err(_) => Seq::empty(),
        })
    }
}

/// A name's place in the order.
fn name_le(a: &str, b: &str) -> (r: bool)
    ensures
        r == lex_le(a@, b@),
{
    if str_eq(a, b) {
        return true;
    }
    chars_lt(&to_chars(a), &to_chars(b))
}

/// A host, ranked by its name.
struct HostRef<'a> {
    host: &'a HostDir,
}

impl<'a> Ranked for HostRef<'a> {
    closed spec fn le(self, other: Self) -> bool {
        lex_le(self.host.name@, other.host.name@)
    }

    fn is_le(&self, other: &Self) -> (r: bool) {
        name_le(self.host.name.as_str(), other.host.name.as_str())
    }

    proof fn le_total(a: Self, b: Self) {
        lemma_lex_total(a.host.name@, b.host.name@);
    }

    proof fn le_transitive(a: Self, b: Self, c: Self) {
        if a.host.name@ != b.host.name@ && b.host.name@ != c.host.name@ {
            lemma_lex_transitive(a.host.name@, b.host.name@, c.host.name@);
        }
    }
}

/// A stage, ranked by its name.
struct StageRef<'a> {
    stage: &'a StageDir,
}

impl<'a> Ranked for StageRef<'a> {
    closed spec fn le(self, other: Self) -> bool {
        lex_le(self.stage.name@, other.stage.name@)
    }

    fn is_le(&self, other: &Self) -> (r: bool) {
        name_le(self.stage.name.as_str(), other.stage.name.as_str())
    }

    proof fn le_total(a: Self, b: Self) {
        lemma_lex_total(a.stage.name@, b.stage.name@);
    }

    proof fn le_transitive(a: Self, b: Self, c: Self) {
        if a.stage.name@ != b.stage.name@ && b.stage.name@ != c.stage.name@ {
            lemma_lex_transitive(a.stage.name@, b.stage.name@, c.stage.name@);
        }
    }
}

spec fn hosts_of<'a>(v: Seq<HostRef<'a>>) -> Seq<HostDir> {
    v.map_values(|h: HostRef<'a>| *h.host)
}

spec fn stages_of<'a>(v: Seq<StageRef<'a>>) -> Seq<StageDir> {
    v.map_values(|s: StageRef<'a>| *s.stage)
}

fn ordered_hosts<'a>(hosts: &'a Vec<HostDir>) -> (r: Vec<HostRef<'a>>)
    ensures
        hosts_of(r@) == sorted_by(hosts@, by_host_name()),
{
    let mut v: Vec<HostRef<'a>> = Vec::new();
    let mut i: usize = 0;
    while i < hosts.len()
        invariant
            i <= hosts@.len(),
            v@.len() == i,
            forall|j: int| 0 <= j < i ==> *(#[trigger] v@[j]).host == hosts@[j],
        decreases hosts@.len() - i,
    {
        v.push(HostRef { host: &hosts[i] });
        i = i + 1;
    }
    assert(hosts_of(v@) =~= hosts@);
    proof {
        lemma_sorted_mapped(v@, rank::<HostRef<'a>>(), |h: HostRef<'a>| *h.host, by_host_name());
    }
    sort(v)
}

fn ordered_stages<'a>(stages: &'a Vec<StageDir>) -> (r: Vec<StageRef<'a>>)
    ensures
        stages_of(r@) == sorted_by(stages@, by_stage_name()),
{
    let mut v: Vec<StageRef<'a>> = Vec::new();
    let mut i: usize = 0;
    while i < stages.len()
        invariant
            i <= stages@.len(),
            v@.len() == i,
            forall|j: int| 0 <= j < i ==> *(#[trigger] v@[j]).stage == stages@[j],
        decreases stages@.len() - i,
    {
        v.push(StageRef { stage: &stages[i] });
        i = i + 1;
    }
    assert(stages_of(v@) =~= stages@);
    proof {
        lemma_sorted_mapped(v@, rank::<StageRef<'a>>(), |s: StageRef<'a>| *s.stage, by_stage_name());
    }
    sort(v)
}

fn copy_texts(v: &Vec<String>) -> (r: Vec<String>)
    ensures
        string_views(r@) == string_views(v@),
{
    let mut out: Vec<String> = Vec::new();
    let mut i: usize = 0;
    while i < v.len()
        invariant
            i <= v@.len(),
            out@.len() == i,
            forall|j: int| 0 <= j < i ==> (#[trigger] out@[j])@ == v@[j]@,
        decreases v@.len() - i,
    {
        out.push(v[i].clone());
        i = i + 1;
    }
    assert(string_views(out@) =~= string_views(v@));
    out
}

fn path_below(dir: &str, name: &str) -> (r: String)
    ensures
        r@ == joined(dir@, name@),
{
    from_chars(&join_path(&to_chars(dir), &to_chars(name)))
}

fn add_bundles(stages: &Vec<StageDir>, host: &str, out: &mut Vec<Bundle>)
    ensures
        bundle_facts(final(out)@) == bundle_facts(old(out)@) + bundles_among(
            sorted_by(stages@, by_stage_name()),
            host@,
        ),
{
    let ordered = ordered_stages(stages);
    let ghost all = stages_of(ordered@);
    let ghost start = bundle_facts(out@);
    let mut i: usize = 0;
    assert(all.take(0) =~= Seq::<StageDir>::empty());
    assert(start + bundles_among(all.take(0), host@) =~= start);
    while i < ordered.len()
        invariant
            i <= ordered@.len(),
            all == stages_of(ordered@),
            bundle_facts(out@) == start + bundles_among(all.take(i as int), host@),
        decreases ordered@.len() - i,
    {
        assert(all.take(i + 1).drop_last() =~= all.take(i as int));
        let stage = ordered[i].stage;
        assert(all[i as int] == *stage);
        if let MetaRead::Parsed(meta) = &stage.meta {
            let ghost before = bundle_facts(out@);
            let bundle = Bundle {
                dir: path_below(host, stage.name.as_str()),
                meta: Meta {
                    sources: copy_texts(&meta.sources),
                    controllers: copy_texts(&meta.controllers),
                    speed_classes: copy_texts(&meta.speed_classes),
                },
            };
            let ghost facts = bundle@;
            out.push(bundle);
            assert(bundle_facts(out@) =~= before.push(facts));
            assert(bundle_facts(out@) =~= start + bundles_among(all.take(i + 1), host@));
        }
        i = i + 1;
    }
    assert(all.take(all.len() as int) =~= all);
}

/// The committed bundles under `root`: every stage directory holding a
/// readable `meta.toml`, by path, so a failure names a stable bundle. A
/// malformed `meta.toml` is skipped, and so is a host that cannot be listed.
pub fn discover_bundles_in(root: &str, hosts: &Vec<HostDir>) -> (r: Vec<Bundle>)
    ensures
        bundle_facts(r@) == bundles_below(sorted_by(hosts@, by_host_name()), root@),
{
    let ordered = ordered_hosts(hosts);
    let ghost all = hosts_of(ordered@);
    let mut out: Vec<Bundle> = Vec::new();
    let mut i: usize = 0;
    assert(all.take(0) =~= Seq::<HostDir>::empty());
    assert(bundle_facts(out@) =~= Seq::<BundleFacts>::empty());
    while i < ordered.len()
        invariant
            i <= ordered@.len(),
            all == hosts_of(ordered@),
            bundle_facts(out@) == bundles_below(all.take(i as int), root@),
        decreases ordered@.len() - i,
    {
        assert(all.take(i + 1).drop_last() =~= all.take(i as int));
        let host = ordered[i].host;
        assert(all[i as int] == *host);
        match &host.stages {
            Ok(stages) => {
                add_bundles(stages, path_below(root, host.name.as_str()).as_str(), &mut out);
            },
            Err(_) => {
                assert(bundle_facts(out@) + Seq::<BundleFacts>::empty() =~= bundle_facts(out@));
            },
        }
        i = i + 1;
    }
    assert(all.take(all.len() as int) =~= all);
    out
}

/// Where the corpus stands below the project's directory.
pub open spec fn corpus_path(manifest_dir: Seq<char>) -> Seq<char> {
    joined(joined(joined(manifest_dir, "tests"@), "fixtures"@), "hosts"@)
}

/// Where the corpus stands below the project's directory.
pub fn fixtures_root(manifest_dir: &str) -> (r: String)
    ensures
        r@ == corpus_path(manifest_dir@),
{
    path_below(path_below(path_below(manifest_dir, "tests").as_str(), "fixtures").as_str(), "hosts")
}

/// The committed corpus below the project's directory; nothing when it could
/// not be listed.
pub fn discover_bundles(manifest_dir: &str, listing: &Result<Vec<HostDir>, String>) -> (r: Vec<Bundle>)
    ensures
        bundle_facts(r@) == (match listing {
            Ok(hosts) => bundles_below(sorted_by(hosts@, by_host_name()), corpus_path(manifest_dir@)),
            Err(_) => Seq::empty(),
        }),
{
    match listing {
        Ok(hosts) => discover_bundles_in(fixtures_root(manifest_dir).as_str(), hosts),
        Err(_) => {
            let none: Vec<Bundle> = Vec::new();
            assert(bundle_facts(none@) =~= Seq::<BundleFacts>::empty());
            none
        },
    }
}

/// The sources that tags name, the unknown ones left out.
pub open spec fn known_sources(tags: Seq<Seq<char>>) -> Seq<FixtureSource>
    decreases tags.len(),
{
    if tags.len() == 0 {
        Seq::empty()
    } else {
        match FixtureSource::tagged(tags.last()) {
            Some(s) => known_sources(tags.drop_last()).push(s),
            None => known_sources(tags.drop_last()),
        }
    }
}

/// The sources that a bundle declares, the unknown ones left out.
pub fn sources_of(bundle: &Bundle) -> (r: Vec<FixtureSource>)
    ensures
        r@ == known_sources(bundle@.meta.sources),
{
    let tags = &bundle.meta.sources;
    let ghost views = string_views(tags@);
    let mut out: Vec<FixtureSource> = Vec::new();
    let mut i: usize = 0;
    assert(views.take(0) =~= Seq::<Seq<char>>::empty());
    while i < tags.len()
        invariant
            i <= tags@.len(),
            views == string_views(tags@),
            out@ == known_sources(views.take(i as int)),
        decreases tags@.len() - i,
    {
        assert(views.take(i + 1).drop_last() =~= views.take(i as int));
        assert(views[i as int] == tags@[i as int]@);
        if let Some(s) = FixtureSource::from_tag(tags[i].as_str()) {
            out.push(s);
        }
        i = i + 1;
    }
    assert(views.take(views.len() as int) =~= views);
    out
}

/// A stage holds the trace of a source.
pub open spec fn holds_trace(stage: StageDir, source: FixtureSource) -> bool {
    match source {
        FixtureSource::Binary => stage.has_binary_trace,
        FixtureSource::Text => stage.has_text_trace,
    }
}

/// The first thing wrong with the sources that a stage declares.
pub open spec fn source_fault(tags: Seq<Seq<char>>, stage: StageDir, dir: Seq<char>) -> Option<Seq<char>>
    decreases tags.len(),
{
    let meta_path = joined(dir, "meta.toml"@);
    if tags.len() == 0 {
        None
    } else {
        match FixtureSource::tagged(tags[0]) {
            None => Some(meta_path + ": unrecognized source tag "@ + quoted_text(tags[0])),
            Some(source) => if !holds_trace(stage, source) {
                Some(
                    meta_path + ": declares source "@ + quoted_text(tags[0]) + " but "@ + joined(
                        dir,
                        source.trace_name(),
                    ) + " is missing"@,
                )
            } else {
                source_fault(tags.skip(1), stage, dir)
            },
        }
    }
}

/// What is wrong with a stage directory.
pub open spec fn stage_fault(stage: StageDir, dir: Seq<char>) -> Option<Seq<char>> {
    let meta_path = joined(dir, "meta.toml"@);
    match stage.meta {
        MetaRead::Unreadable(e) => Some(meta_path + ": meta.toml unreadable: "@ + e@),
        MetaRead::Malformed(e) => Some(meta_path + ": meta.toml does not parse: "@ + e@),
        MetaRead::Parsed(meta) => source_fault(meta@.sources, stage, dir),
    }
}

/// The first thing wrong with stages in order; what is no directory is no
/// stage.
pub open spec fn stages_fault(stages: Seq<StageDir>, host: Seq<char>) -> Option<Seq<char>>
    decreases stages.len(),
{
    if stages.len() == 0 {
        None
    } else {
        let here = if stages[0].is_dir {
            stage_fault(stages[0], joined(host, stages[0].name@))
        } else {
            None
        };
        match here {
            Some(f) => Some(f),
            None => stages_fault(stages.skip(1), host),
        }
    }
}

/// What is wrong with a host directory.
pub open spec fn host_fault(host: HostDir, dir: Seq<char>) -> Option<Seq<char>> {
    match host.stages {
        Err(e) => Some("read "@ + dir + ": "@ + e@),
        Ok(stages) => stages_fault(sorted_by(stages@, by_stage_name()), dir),
    }
}

/// The first thing wrong with hosts in order; what is no directory is no
/// host.
pub open spec fn hosts_fault(hosts: Seq<HostDir>, root: Seq<char>) -> Option<Seq<char>>
    decreases hosts.len(),
{
    if hosts.len() == 0 {
        None
    } else {
        let here = if hosts[0].is_dir {
            host_fault(hosts[0], joined(root, hosts[0].name@))
        } else {
            None
        };
        match here {
            Some(f) => Some(f),
            None => hosts_fault(hosts.skip(1), root),
        }
    }
}

/// What is wrong with a corpus.
pub open spec fn corpus_fault(root: Seq<char>, listing: Result<Vec<HostDir>, String>) -> Option<Seq<char>> {
    match listing {
        Err(e) => Some("read "@ + root + ": "@ + e@),
        Ok(hosts) => hosts_fault(sorted_by(hosts@, by_host_name()), root),
    }
}

fn read_fault(dir: &str, error: &str) -> (r: String)
    ensures
        r@ == "read "@ + dir@ + ": "@ + error@,
{
    let mut v = to_chars("read ");
    extend_str(&mut v, dir);
    extend_str(&mut v, ": ");
    extend_str(&mut v, error);
    from_chars(&v)
}

fn check_sources(tags: &Vec<String>, stage: &StageDir, dir: &str) -> (r: Option<String>)
    ensures
        match r {
            Some(f) => source_fault(string_views(tags@), *stage, dir@) == Some(f@),
            None => source_fault(string_views(tags@), *stage, dir@) is None,
        },
{
    let ghost views = string_views(tags@);
    let mut i: usize = 0;
    assert(views.skip(0) =~= views);
    while i < tags.len()
        invariant
            i <= tags@.len(),
            views == string_views(tags@),
            source_fault(views.skip(i as int), *stage, dir@) == source_fault(views, *stage, dir@),
        decreases tags@.len() - i,
    {
        assert(views.skip(i as int)[0] == tags@[i as int]@);
        let mut v = to_chars(path_below(dir, "meta.toml").as_str());
        match FixtureSource::from_tag(tags[i].as_str()) {
            None => {
                extend_str(&mut v, ": unrecognized source tag ");
                extend_str(&mut v, quoted(tags[i].as_str()).as_str());
                return Some(from_chars(&v));
            },
            Some(source) => {
                let there = match source {
                    FixtureSource::Binary => stage.has_binary_trace,
                    FixtureSource::Text => stage.has_text_trace,
                };
                if !there {
                    extend_str(&mut v, ": declares source ");
                    extend_str(&mut v, quoted(tags[i].as_str()).as_str());
                    extend_str(&mut v, " but ");
                    extend_str(&mut v, path_below(dir, source.trace_filename()).as_str());
                    extend_str(&mut v, " is missing");
                    return Some(from_chars(&v));
                }
            },
        }
        assert(views.skip(i as int).skip(1) =~= views.skip(i + 1));
        i = i + 1;
    }
    None
}

fn check_stage(stage: &StageDir, dir: &str) -> (r: Option<String>)
    ensures
        match r {
            Some(f) => stage_fault(*stage, dir@) == Some(f@),
            None => stage_fault(*stage, dir@) is None,
        },
{
    let mut v = to_chars(path_below(dir, "meta.toml").as_str());
    match &stage.meta {
        MetaRead::Unreadable(e) => {
            extend_str(&mut v, ": meta.toml unreadable: ");
            extend_str(&mut v, e.as_str());
            Some(from_chars(&v))
        },
        MetaRead::Malformed(e) => {
            extend_str(&mut v, ": meta.toml does not parse: ");
            extend_str(&mut v, e.as_str());
            Some(from_chars(&v))
        },
        MetaRead::Parsed(meta) => check_sources(&meta.sources, stage, dir),
    }
}

fn check_host(host: &HostDir, dir: &str) -> (r: Option<String>)
    ensures
        match r {
            Some(f) => host_fault(*host, dir@) == Some(f@),
            None => host_fault(*host, dir@) is None,
        },
{
    let stages = match &host.stages {
        Err(e) => {
            return Some(read_fault(dir, e.as_str()));
        },
        Ok(stages) => ordered_stages(stages),
    };
    let ghost all = stages_of(stages@);
    let mut i: usize = 0;
    assert(all.skip(0) =~= all);
    while i < stages.len()
        invariant
            i <= stages@.len(),
            all == stages_of(stages@),
            host_fault(*host, dir@) == stages_fault(all.skip(i as int), dir@),
        decreases stages@.len() - i,
    {
        let stage = stages[i].stage;
        assert(all.skip(i as int)[0] == *stage);
        if stage.is_dir {
            let fault = check_stage(stage, path_below(dir, stage.name.as_str()).as_str());
            if fault.is_some() {
                return fault;
            }
        }
        assert(all.skip(i as int).skip(1) =~= all.skip(i + 1));
        i = i + 1;
    }
    None
}

/// Whether every directory exactly two levels below `root` is a well-formed
/// bundle: `meta.toml` exists and parses, every tag in its `sources` list is
/// recognized, and each declared source's trace file exists. Nothing is
/// skipped: the first thing wrong, in path order, fails the corpus.
pub fn check_corpus_strict(root: &str, listing: &Result<Vec<HostDir>, String>) -> (r: Result<(), String>)
    ensures
        match r {
            Ok(_) => corpus_fault(root@, *listing) is None,
            Err(f) => corpus_fault(root@, *listing) == Some(f@),
        },
{
    let hosts = match listing {
        Err(e) => {
            return Err(read_fault(root, e.as_str()));
        },
        Ok(hosts) => ordered_hosts(hosts),
    };
    let ghost all = hosts_of(hosts@);
    let mut i: usize = 0;
    assert(all.skip(0) =~= all);
    while i < hosts.len()
        invariant
            i <= hosts@.len(),
            all == hosts_of(hosts@),
            corpus_fault(root@, *listing) == hosts_fault(all.skip(i as int), root@),
        decreases hosts@.len() - i,
    {
        let host = hosts[i].host;
        assert(all.skip(i as int)[0] == *host);
        if host.is_dir {
            if let Some(f) = check_host(host, path_below(root, host.name.as_str()).as_str()) {
                return Err(f);
            }
        }
        assert(all.skip(i as int).skip(1) =~= all.skip(i + 1));
        i = i + 1;
    }
    Ok(())
}

/// What a walk has found: the paths, and the directories it has been in.
pub struct Found {
    pub paths: Seq<Seq<char>>,
    pub seen: Seq<Seq<char>>,
}

/// What a directory's entries add to a walk for a name. A directory is
/// entered once: a link back to one that was entered is not followed, and
/// neither is one that does not resolve.
pub open spec fn walked_for(before: Found, entries: Seq<Node>, dir: Seq<char>, name: Seq<char>) -> Found
    decreases entries,
{
    if entries.len() == 0 {
        before
    } else {
        let front = walked_for(before, entries.subrange(0, entries.len() - 1), dir, name);
        let node = entries[entries.len() - 1];
        let path = joined(dir, node.name@);
        let here = if node.name@ == name {
            Found { paths: front.paths.push(path), ..front }
        } else {
            front
        };
        match (node.canonical, node.content) {
            (Some(canon), Content::Directory(children)) => if here.seen.contains(canon@) {
                here
            } else {
                walked_for((Found { seen: here.seen.push(canon@), ..here }), children@, path, name)
            },
            _ => here,
        }
    }
}

/// A walk under way.
struct Finder {
    paths: Vec<String>,
    seen: Vec<String>,
}

impl Finder {
    spec fn facts(self) -> Found {
        Found { paths: string_views(self.paths@), seen: string_views(self.seen@) }
    }

    fn has_seen(&self, canon: &str) -> (r: bool)
        ensures
            r == self.facts().seen.contains(canon@),
    {
        let ghost seen = string_views(self.seen@);
        let mut i: usize = 0;
        while i < self.seen.len()
            invariant
                i <= self.seen@.len(),
                seen == string_views(self.seen@),
                forall|j: int| 0 <= j < i ==> seen[j] != canon@,
            decreases self.seen@.len() - i,
        {
            assert(seen[i as int] == self.seen@[i as int]@);
            if str_eq(self.seen[i].as_str(), canon) {
                assert(seen.contains(seen[i as int]));
                return true;
            }
            i = i + 1;
        }
        false
    }

    fn walk(&mut self, entries: &Vec<Node>, dir: &str, name: &str)
        ensures
            final(self).facts() == walked_for(old(self).facts(), entries@, dir@, name@),
        decreases entries@,
    {
        let ghost start = self.facts();
        let mut i: usize = 0;
        assert(entries@.subrange(0, 0) =~= Seq::<Node>::empty());
        while i < entries.len()
            invariant
                i <= entries@.len(),
                self.facts() == walked_for(start, entries@.subrange(0, i as int), dir@, name@),
            decreases entries@.len() - i,
        {
            let ghost front = entries@.subrange(0, i + 1);
            assert(front.subrange(0, front.len() - 1) =~= entries@.subrange(0, i as int));
            let node = &entries[i];
            assert(front[front.len() - 1] == *node);
            let path = path_below(dir, node.name.as_str());
            if str_eq(node.name.as_str(), name) {
                let ghost before = string_views(self.paths@);
                self.paths.push(path.clone());
                assert(string_views(self.paths@) =~= before.push(path@));
            }
            if let (Some(canon), Content::Directory(children)) = (&node.canonical, &node.content) {
                if !self.has_seen(canon.as_str()) {
                    let ghost before = string_views(self.seen@);
                    self.seen.push(canon.clone());
                    assert(string_views(self.seen@) =~= before.push(canon@));
                    assert(decreases_to!(entries@ => entries@[i as int]));
                    self.walk(children, path.as_str(), name);
                }
            }
            i = i + 1;
        }
        assert(entries@.subrange(0, entries@.len() as int) =~= entries@);
    }
}

/// Every path beneath `root` whose file name is exactly `name`, whatever the
/// `meta.toml` beside it says. A link that leads back cannot make the walk
/// go on for ever.
pub fn find_named(root: &str, canonical: Option<&str>, entries: &Vec<Node>, name: &str) -> (r: Vec<String>)
    ensures
        string_views(r@) == walked_for(
            (Found {
                paths: Seq::empty(),
                seen: match canonical {
                    Some(canon) => seq![canon@],
                    None => Seq::empty(),
                },
            }),
            entries@,
            root@,
            name@,
        ).paths,
{
    let mut finder = Finder { paths: Vec::new(), seen: Vec::new() };
    if let Some(canon) = canonical {
        finder.seen.push(canon.to_owned());
    }
    assert(finder.facts().paths =~= Seq::<Seq<char>>::empty());
    assert(finder.facts().seen =~= (match canonical {
        Some(canon) => seq![canon@],
        None => Seq::empty(),
    }));
    finder.walk(entries, root, name);
    finder.paths
}

/// A bundle directory whose host is named `seed-…`.
pub open spec fn is_seed(dir: Seq<char>) -> bool {
    match parent_parts(dir) {
        Some(up) => up.len() > 0 && is_name(up.last()) && starts(up.last(), "seed-"@),
        None => false,
    }
}

/// Whether a bundle is a seed: its host directory's name starts with `seed-`.
pub fn is_seed_bundle(bundle: &Bundle) -> (r: bool)
    ensures
        r == is_seed(bundle@.dir),
{
    let p = parts(&to_chars(bundle.dir.as_str()));
    let ghost views = char_views(p@);
    let n = p.len();
    if n < 2 {
        return false;
    }
    assert(views.drop_last().last() == p@[n - 2]@);
    assert(views.last() == p@[n - 1]@);
    let last_is_root = crate::path::is_root(&p[n - 1]);
    if last_is_root {
        return false;
    }
    let host = &p[n - 2];
    !crate::path::is_root(host) && !crate::path::is_here(host) && !crate::path::is_up(host) && starts_with(
        host,
        &to_chars("seed-"),
    )
}

/// The transfer code of a binary event.
pub open spec fn transfer_code(t: Option<TransferType>) -> u8 {
    match t {
        Some(TransferType::Isochronous) => 0,
        Some(TransferType::Interrupt) => 1,
        Some(TransferType::Control) => 2,
        Some(TransferType::Bulk) => 3,
        None => 3,
    }
}

/// Byte `k` of a number's four.
pub open spec fn number_byte(n: u32, k: int, order: ByteOrder) -> u8 {
    let place = match order {
        ByteOrder::Little => k,
        ByteOrder::Big => 3 - k,
    };
    (if place == 0 {
        n % 256
    } else if place == 1 {
        n / 256 % 256
    } else if place == 2 {
        n / 65_536 % 256
    } else {
        n / 16_777_216
    }) as u8
}

/// Byte `i` of the binary event of a callback. The captured length stays zero.
pub open spec fn event_byte(p: UsbPacket, order: ByteOrder, i: int) -> u8 {
    if i == 8 {
        67u8
    } else if i == 9 {
        transfer_code(p.transfer_type)
    } else if i == 10 {
        if p.direction {
            p.endpoint | 0x80u8
        } else {
            p.endpoint
        }
    } else if i == 11 {
        p.device_id
    } else if i == 12 {
        match order {
            ByteOrder::Little => p.bus_id,
            ByteOrder::Big => 0u8,
        }
    } else if i == 13 {
        match order {
            ByteOrder::Little => 0u8,
            ByteOrder::Big => p.bus_id,
        }
    } else if 32 <= i < 36 {
        number_byte(p.data_length, i - 32, order)
    } else {
        0u8
    }
}

/// The binary event of a callback.
pub open spec fn event_of(p: UsbPacket, order: ByteOrder) -> Seq<u8> {
    Seq::new(48, |i: int| event_byte(p, order, i))
}

/// The binary events of the callbacks among packets.
pub open spec fn seed_events(packets: Seq<UsbPacket>, order: ByteOrder) -> Seq<u8>
    decreases packets.len(),
{
    if packets.len() == 0 {
        Seq::empty()
    } else if packets.last().urb_type == UrbType::Callback {
        seed_events(packets.drop_last(), order) + event_of(packets.last(), order)
    } else {
        seed_events(packets.drop_last(), order)
    }
}

fn byte_of_number(n: u32, k: usize, order: ByteOrder) -> (r: u8)
    requires
        k < 4,
    ensures
        r == number_byte(n, k as int, order),
{
    let place = match order {
        ByteOrder::Little => k,
        ByteOrder::Big => 3 - k,
    };
    if place == 0 {
        (n % 256) as u8
    } else if place == 1 {
        (n / 256 % 256) as u8
    } else if place == 2 {
        (n / 65_536 % 256) as u8
    } else {
        (n / 16_777_216) as u8
    }
}

fn byte_of_event(p: &UsbPacket, order: ByteOrder, i: usize) -> (r: u8)
    ensures
        r == event_byte(*p, order, i as int),
{
    if i == 8 {
        67
    } else if i == 9 {
        match p.transfer_type {
            Some(TransferType::Isochronous) => 0,
            Some(TransferType::Interrupt) => 1,
            Some(TransferType::Control) => 2,
            Some(TransferType::Bulk) => 3,
            None => 3,
        }
    } else if i == 10 {
        if p.direction {
            p.endpoint | 0x80
        } else {
            p.endpoint
        }
    } else if i == 11 {
        p.device_id
    } else if i == 12 {
        match order {
            ByteOrder::Little => p.bus_id,
            ByteOrder::Big => 0,
        }
    } else if i == 13 {
        match order {
            ByteOrder::Little => 0,
            ByteOrder::Big => p.bus_id,
        }
    } else if 32 <= i && i < 36 {
        byte_of_number(p.data_length, i - 32, order)
    } else {
        0
    }
}

/// A binary trace whose events mirror the callbacks among a text trace's
/// packets, so a seed's two sources agree. It holds the fields that are read
/// back: type, transfer, endpoint and direction, device, bus, length.
pub fn seed_binary_from_text(packets: &Vec<UsbPacket>, order: ByteOrder) -> (r: Vec<u8>)
    ensures
        r@ == seed_events(packets@, order),
{
    let mut out: Vec<u8> = Vec::new();
    let mut i: usize = 0;
    assert(packets@.take(0) =~= Seq::<UsbPacket>::empty());
    while i < packets.len()
        invariant
            i <= packets@.len(),
            out@ == seed_events(packets@.take(i as int), order),
        decreases packets@.len() - i,
    {
        assert(packets@.take(i + 1).drop_last() =~= packets@.take(i as int));
        let p = &packets[i];
        if p.urb_type == UrbType::Callback {
            let ghost before = out@;
            let mut k: usize = 0;
            while k < HEADER_LEN
                invariant
                    k <= 48,
                    out@ == before + event_of(*p, order).take(k as int),
                decreases 48 - k,
            {
                out.push(byte_of_event(p, order, k));
                assert(event_of(*p, order).take(k + 1) =~= event_of(*p, order).take(k as int).push(
                    event_byte(*p, order, k as int),
                ));
                k = k + 1;
            }
            assert(event_of(*p, order).take(48) =~= event_of(*p, order));
        }
        i = i + 1;
    }
    assert(packets@.take(packets@.len() as int) =~= packets@);
    out
}

/// A seed's binary trace is whole headers without payload.
pub proof fn law_a_seed_trace_is_payload_free(packets: Seq<UsbPacket>, order: ByteOrder)
    ensures
        is_payload_free(seed_events(packets, order)),
    decreases packets.len(),
{
    if packets.len() > 0 {
        law_a_seed_trace_is_payload_free(packets.drop_last(), order);
        let front = seed_events(packets.drop_last(), order);
        let all = seed_events(packets, order);
        if packets.last().urb_type == UrbType::Callback {
            let event = event_of(packets.last(), order);
            assert forall|i: int| 0 <= i < all.len() / 48 implies !(#[trigger] claims_payload(all, i)) by {
                if i < front.len() / 48 {
                    assert(!claims_payload(front, i));
                    assert(all[48 * i + 36] == front[48 * i + 36]);
                    assert(all[48 * i + 37] == front[48 * i + 37]);
                    assert(all[48 * i + 38] == front[48 * i + 38]);
                    assert(all[48 * i + 39] == front[48 * i + 39]);
                } else {
                    assert(48 * i == front.len());
                    assert(all[48 * i + 36] == event[36]);
                    assert(all[48 * i + 37] == event[37]);
                    assert(all[48 * i + 38] == event[38]);
                    assert(all[48 * i + 39] == event[39]);
                }
            }
        }
    }
}

/// The length of a seed's event reads back as the packet's.
pub proof fn law_a_seed_event_keeps_the_length(p: UsbPacket, order: ByteOrder)
    ensures
        number_of(event_of(p, order).subrange(32, 36), order) == p.data_length,
{
    let n = p.data_length;
    let b = event_of(p, order).subrange(32, 36);
    assert(b[0] == number_byte(n, 0, order));
    assert(b[1] == number_byte(n, 1, order));
    assert(b[2] == number_byte(n, 2, order));
    assert(b[3] == number_byte(n, 3, order));
}

} // verus!
