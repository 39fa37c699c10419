//! What a corpus promises: it passes exactly when every stage of every host
//! is whole, every stage that can be read is a bundle, and a seed trace tells
//! its packets.

use vstd::prelude::*;

use crate::capture::trace::ByteOrder;
use crate::fixture_replay::FixtureSource;
use crate::order::{is_order, lemma_lex_total, lemma_lex_transitive, lemma_sorted, sorted_by};
use crate::path::joined;
use crate::sysfs::Node;
use crate::usbmon::{TransferType, UrbType, UsbPacket};

use super::{
    bundles_among, bundles_below, by_host_name, by_stage_name, corpus_fault, event_of, holds_trace, host_fault,
    hosts_fault, seed_events, source_fault, stage_fault, stages_fault, walked_for, BundleFacts, Found, HostDir,
    StageDir,
};

verus! {

/// Whether a stage is whole: its `meta.toml` parses, and each source that it
/// declares is a known one whose trace is there.
pub open spec fn is_whole(stage: StageDir) -> bool {
    &&& stage.meta is Parsed
    &&& forall|k: int|
        0 <= k < stage.meta->Parsed_0@.sources.len() ==> ((#[trigger] stage.meta->Parsed_0@.sources[k]) == "binary"@
            && stage.has_binary_trace) || (stage.meta->Parsed_0@.sources[k] == "text"@ && stage.has_text_trace)
}

/// Whether every stage directory of a host is whole.
pub open spec fn all_whole(host: HostDir) -> bool {
    &&& host.stages is Ok
    &&& forall|j: int|
        0 <= j < (host.stages->Ok_0)@.len() && (#[trigger] (host.stages->Ok_0)@[j]).is_dir ==> is_whole(
            (host.stages->Ok_0)@[j],
        )
}

proof fn lemma_tags()
    ensures
        "binary"@ != "text"@,
{
    reveal_strlit("binary");
    reveal_strlit("text");
    assert("binary"@.len() == 6 && "text"@.len() == 4);
}

proof fn lemma_source_fault(tags: Seq<Seq<char>>, stage: StageDir, dir: Seq<char>)
    ensures
        source_fault(tags, stage, dir) is None <==> forall|k: int|
            0 <= k < tags.len() ==> ((#[trigger] tags[k]) == "binary"@ && stage.has_binary_trace) || (tags[k] == "text"@
                && stage.has_text_trace),
    decreases tags.len(),
{
    lemma_tags();
    if tags.len() > 0 {
        let t = tags.skip(1);
        lemma_source_fault(t, stage, dir);
        let good = |k: int|
            (tags[k] == "binary"@ && stage.has_binary_trace) || (tags[k] == "text"@ && stage.has_text_trace);
        assert(good(0) <==> FixtureSource::tagged(tags[0]) is Some && holds_trace(
            stage,
            FixtureSource::tagged(tags[0])->0,
        ));
        if source_fault(tags, stage, dir) is None {
            assert forall|k: int| 0 <= k < tags.len() implies ((#[trigger] tags[k]) == "binary"@
                && stage.has_binary_trace) || (tags[k] == "text"@ && stage.has_text_trace) by {
                if k > 0 {
                    assert(t[k - 1] == tags[k]);
                }
            }
        }
        if forall|k: int|
            0 <= k < tags.len() ==> ((#[trigger] tags[k]) == "binary"@ && stage.has_binary_trace) || (tags[k] == "text"@
                && stage.has_text_trace) {
            assert(good(0));
            assert forall|k: int| 0 <= k < t.len() implies ((#[trigger] t[k]) == "binary"@ && stage.has_binary_trace) || (
            t[k] == "text"@ && stage.has_text_trace) by {
                assert(tags[k + 1] == t[k]);
            }
        }
    }
}

proof fn lemma_stages_fault(stages: Seq<StageDir>, host: Seq<char>)
    ensures
        stages_fault(stages, host) is None <==> forall|j: int|
            0 <= j < stages.len() && (#[trigger] stages[j]).is_dir ==> is_whole(stages[j]),
    decreases stages.len(),
{
    if stages.len() > 0 {
        let t = stages.skip(1);
        lemma_stages_fault(t, host);
        if stages[0].meta is Parsed {
            lemma_source_fault(
                stages[0].meta->Parsed_0@.sources,
                stages[0],
                joined(host, stages[0].name@),
            );
        }
        assert(stage_fault(stages[0], joined(host, stages[0].name@)) is None <==> is_whole(stages[0]));
        if stages_fault(stages, host) is None {
            assert forall|j: int| 0 <= j < stages.len() && (#[trigger] stages[j]).is_dir implies is_whole(
                stages[j],
            ) by {
                if j > 0 {
                    assert(t[j - 1] == stages[j]);
                }
            }
        }
        if forall|j: int| 0 <= j < stages.len() && (#[trigger] stages[j]).is_dir ==> is_whole(stages[j]) {
            assert(stages[0].is_dir ==> is_whole(stages[0]));
            assert forall|j: int| 0 <= j < t.len() && (#[trigger] t[j]).is_dir implies is_whole(t[j]) by {
                assert(stages[j + 1] == t[j]);
            }
        }
    }
}

proof fn lemma_same_members<A>(s: Seq<A>, le: spec_fn(A, A) -> bool)
    requires
        is_order(le),
    ensures
        forall|x: A| #[trigger] sorted_by(s, le).contains(x) <==> s.contains(x),
{
    broadcast use vstd::seq_lib::group_to_multiset_ensures;

    lemma_sorted(s, le);
    let t = sorted_by(s, le);
    assert forall|x: A| #[trigger] t.contains(x) <==> s.contains(x) by {
        assert(t.contains(x) <==> t.to_multiset().count(x) > 0);
        assert(s.contains(x) <==> s.to_multiset().count(x) > 0);
    }
}

proof fn lemma_orders()
    ensures
        is_order(by_host_name()),
        is_order(by_stage_name()),
{
    let h = by_host_name();
    assert forall|a: HostDir, b: HostDir| #[trigger] h(a, b) || h(b, a) by {
        lemma_lex_total(a.name@, b.name@);
    }
    assert forall|a: HostDir, b: HostDir, c: HostDir| #[trigger] h(a, b) && #[trigger] h(b, c) implies h(a, c) by {
        if a.name@ != b.name@ && b.name@ != c.name@ {
            lemma_lex_transitive(a.name@, b.name@, c.name@);
        }
    }
    let s = by_stage_name();
    assert forall|a: StageDir, b: StageDir| #[trigger] s(a, b) || s(b, a) by {
        lemma_lex_total(a.name@, b.name@);
    }
    assert forall|a: StageDir, b: StageDir, c: StageDir| #[trigger] s(a, b) && #[trigger] s(b, c) implies s(a, c) by {
        if a.name@ != b.name@ && b.name@ != c.name@ {
            lemma_lex_transitive(a.name@, b.name@, c.name@);
        }
    }
}

proof fn lemma_host_fault(host: HostDir, dir: Seq<char>)
    ensures
        host_fault(host, dir) is None <==> all_whole(host),
{
    if let Ok(v) = host.stages {
        lemma_orders();
        let ordered = sorted_by(v@, by_stage_name());
        lemma_same_members(v@, by_stage_name());
        lemma_stages_fault(ordered, dir);
        if host_fault(host, dir) is None {
            assert forall|j: int| 0 <= j < v@.len() && (#[trigger] v@[j]).is_dir implies is_whole(v@[j]) by {
                assert(v@.contains(v@[j]));
                assert(ordered.contains(v@[j]));
                let k = choose|k: int| 0 <= k < ordered.len() && ordered[k] == v@[j];
                assert(ordered[k].is_dir);
            }
        }
        if all_whole(host) {
            assert forall|k: int| 0 <= k < ordered.len() && (#[trigger] ordered[k]).is_dir implies is_whole(
                ordered[k],
            ) by {
                assert(ordered.contains(ordered[k]));
                assert(v@.contains(ordered[k]));
                let j = choose|j: int| 0 <= j < v@.len() && v@[j] == ordered[k];
                assert(v@[j].is_dir);
            }
        }
    }
}

proof fn lemma_hosts_fault(hosts: Seq<HostDir>, root: Seq<char>)
    ensures
        hosts_fault(hosts, root) is None <==> forall|i: int|
            0 <= i < hosts.len() && (#[trigger] hosts[i]).is_dir ==> all_whole(hosts[i]),
    decreases hosts.len(),
{
    if hosts.len() > 0 {
        let t = hosts.skip(1);
        lemma_hosts_fault(t, root);
        lemma_host_fault(hosts[0], joined(root, hosts[0].name@));
        if hosts_fault(hosts, root) is None {
            assert forall|i: int| 0 <= i < hosts.len() && (#[trigger] hosts[i]).is_dir implies all_whole(hosts[i]) by {
                if i > 0 {
                    assert(t[i - 1] == hosts[i]);
                }
            }
        }
        if forall|i: int| 0 <= i < hosts.len() && (#[trigger] hosts[i]).is_dir ==> all_whole(hosts[i]) {
            assert(hosts[0].is_dir ==> all_whole(hosts[0]));
            assert forall|i: int| 0 <= i < t.len() && (#[trigger] t[i]).is_dir implies all_whole(t[i]) by {
                assert(hosts[i + 1] == t[i]);
            }
        }
    }
}

/// A corpus passes exactly when it and every host directory can be listed and
/// every stage directory is whole.
pub proof fn law_a_corpus_passes_when_every_stage_is_whole(
    root: Seq<char>,
    listing: Result<Vec<HostDir>, String>,
)
    ensures
        corpus_fault(root, listing) is None <==> listing is Ok && forall|i: int|
            0 <= i < (listing->Ok_0)@.len() && (#[trigger] (listing->Ok_0)@[i]).is_dir ==> all_whole(
                (listing->Ok_0)@[i],
            ),
{
    if let Ok(v) = listing {
        lemma_orders();
        let ordered = sorted_by(v@, by_host_name());
        lemma_same_members(v@, by_host_name());
        lemma_hosts_fault(ordered, root);
        if corpus_fault(root, listing) is None {
            assert forall|i: int| 0 <= i < v@.len() && (#[trigger] v@[i]).is_dir implies all_whole(v@[i]) by {
                assert(v@.contains(v@[i]));
                assert(ordered.contains(v@[i]));
                let k = choose|k: int| 0 <= k < ordered.len() && ordered[k] == v@[i];
                assert(ordered[k].is_dir);
            }
        }
        if forall|i: int| 0 <= i < v@.len() && (#[trigger] v@[i]).is_dir ==> all_whole(v@[i]) {
            assert forall|k: int| 0 <= k < ordered.len() && (#[trigger] ordered[k]).is_dir implies all_whole(
                ordered[k],
            ) by {
                assert(ordered.contains(ordered[k]));
                assert(v@.contains(ordered[k]));
                let i = choose|i: int| 0 <= i < v@.len() && v@[i] == ordered[k];
                assert(v@[i].is_dir);
            }
        }
    }
}

proof fn lemma_bundles_among(stages: Seq<StageDir>, host: Seq<char>, b: BundleFacts)
    ensures
        bundles_among(stages, host).contains(b) <==> exists|j: int|
            0 <= j < stages.len() && (#[trigger] stages[j]).meta is Parsed && b.meta == stages[j].meta->Parsed_0@
                && b.dir == joined(host, stages[j].name@),
    decreases stages.len(),
{
    if stages.len() > 0 {
        let front = stages.drop_last();
        lemma_bundles_among(front, host, b);
        let kept = bundles_among(front, host);
        let all = bundles_among(stages, host);
        if all.contains(b) {
            let k = choose|k: int| 0 <= k < all.len() && all[k] == b;
            if k < kept.len() {
                assert(kept[k] == b);
                let j = choose|j: int|
                    0 <= j < front.len() && (#[trigger] front[j]).meta is Parsed && b.meta == front[j].meta->Parsed_0@
                        && b.dir == joined(host, front[j].name@);
                assert(stages[j] == front[j]);
            } else {
                assert(stages[stages.len() - 1].meta is Parsed);
            }
        }
        if exists|j: int|
            0 <= j < stages.len() && (#[trigger] stages[j]).meta is Parsed && b.meta == stages[j].meta->Parsed_0@
                && b.dir == joined(host, stages[j].name@) {
            let j = choose|j: int|
                0 <= j < stages.len() && (#[trigger] stages[j]).meta is Parsed && b.meta == stages[j].meta->Parsed_0@
                    && b.dir == joined(host, stages[j].name@);
            if j < front.len() {
                assert(front[j] == stages[j]);
                let k = choose|k: int| 0 <= k < kept.len() && kept[k] == b;
                assert(all[k] == b);
            } else {
                assert(all[all.len() - 1] == b);
            }
        }
    }
}

/// Every stage of a host whose `meta.toml` parses is a bundle at its own
/// place with what the file says, and nothing else is.
pub proof fn law_every_parsed_stage_of_a_host_is_a_bundle(stages: Seq<StageDir>, host: Seq<char>, b: BundleFacts)
    ensures
        bundles_among(sorted_by(stages, by_stage_name()), host).contains(b) <==> exists|j: int|
            0 <= j < stages.len() && (#[trigger] stages[j]).meta is Parsed && b.meta == stages[j].meta->Parsed_0@
                && b.dir == joined(host, stages[j].name@),
{
    lemma_orders();
    let ordered = sorted_by(stages, by_stage_name());
    lemma_same_members(stages, by_stage_name());
    lemma_bundles_among(ordered, host, b);
    if exists|j: int|
        0 <= j < stages.len() && (#[trigger] stages[j]).meta is Parsed && b.meta == stages[j].meta->Parsed_0@ && b.dir
            == joined(host, stages[j].name@) {
        let j = choose|j: int|
            0 <= j < stages.len() && (#[trigger] stages[j]).meta is Parsed && b.meta == stages[j].meta->Parsed_0@
                && b.dir == joined(host, stages[j].name@);
        assert(stages.contains(stages[j]));
        assert(ordered.contains(stages[j]));
        let k = choose|k: int| 0 <= k < ordered.len() && ordered[k] == stages[j];
        assert(ordered[k].meta is Parsed);
    }
    if exists|j: int|
        0 <= j < ordered.len() && (#[trigger] ordered[j]).meta is Parsed && b.meta == ordered[j].meta->Parsed_0@ && b.dir
            == joined(host, ordered[j].name@) {
        let j = choose|j: int|
            0 <= j < ordered.len() && (#[trigger] ordered[j]).meta is Parsed && b.meta == ordered[j].meta->Parsed_0@
                && b.dir == joined(host, ordered[j].name@);
        assert(ordered.contains(ordered[j]));
        assert(stages.contains(ordered[j]));
        let k = choose|k: int| 0 <= k < stages.len() && stages[k] == ordered[j];
        assert(stages[k].meta is Parsed);
    }
}

/// The bundles of a corpus are those of its hosts, each host below the root
/// under its own name; a host that cannot be listed has none.
pub proof fn law_the_bundles_of_a_corpus_are_those_of_its_hosts(hosts: Seq<HostDir>, root: Seq<char>, b: BundleFacts)
    ensures
        bundles_below(hosts, root).contains(b) <==> exists|i: int|
            0 <= i < hosts.len() && (#[trigger] hosts[i]).stages is Ok && bundles_among(
                sorted_by((hosts[i].stages->Ok_0)@, by_stage_name()),
                joined(root, hosts[i].name@),
            ).contains(b),
    decreases hosts.len(),
{
    if hosts.len() > 0 {
        let front = hosts.drop_last();
        law_the_bundles_of_a_corpus_are_those_of_its_hosts(front, root, b);
        let last = hosts.last();
        let kept = bundles_below(front, root);
        let all = bundles_below(hosts, root);
        let own = match last.stages {
            Ok(stages) => bundles_among(sorted_by(stages@, by_stage_name()), joined(root, last.name@)),
            Err(_) => Seq::empty(),
        };
        if all.contains(b) {
            let k = choose|k: int| 0 <= k < all.len() && all[k] == b;
            if k < kept.len() {
                assert(kept[k] == b);
                let i = choose|i: int|
                    0 <= i < front.len() && (#[trigger] front[i]).stages is Ok && bundles_among(
                        sorted_by((front[i].stages->Ok_0)@, by_stage_name()),
                        joined(root, front[i].name@),
                    ).contains(b);
                assert(hosts[i] == front[i]);
            } else {
                assert(own[k - kept.len()] == b);
                assert(hosts[hosts.len() - 1].stages is Ok);
            }
        }
        if exists|i: int|
            0 <= i < hosts.len() && (#[trigger] hosts[i]).stages is Ok && bundles_among(
                sorted_by((hosts[i].stages->Ok_0)@, by_stage_name()),
                joined(root, hosts[i].name@),
            ).contains(b) {
            let i = choose|i: int|
                0 <= i < hosts.len() && (#[trigger] hosts[i]).stages is Ok && bundles_among(
                    sorted_by((hosts[i].stages->Ok_0)@, by_stage_name()),
                    joined(root, hosts[i].name@),
                ).contains(b);
            if i < front.len() {
                assert(front[i] == hosts[i]);
                let k = choose|k: int| 0 <= k < kept.len() && kept[k] == b;
                assert(all[k] == b);
            } else {
                let k = choose|k: int| 0 <= k < own.len() && own[k] == b;
                assert(all[kept.len() + k] == b);
            }
        }
    }
}

/// A seed event tells its packet: a callback with the endpoint and its
/// direction, the device, the bus, the transfer type by its code and the
/// length that was transferred.
#[verifier::rlimit(40)]
pub proof fn law_a_seed_event_tells_its_packet(p: UsbPacket, order: ByteOrder)
    requires
        p.endpoint < 128,
    ensures
        ({
            let e = event_of(p, order);
            &&& e.len() == 48
            &&& e[8] == 67
            &&& e[9] == (match p.transfer_type {
                Some(TransferType::Isochronous) => 0u8,
                Some(TransferType::Interrupt) => 1u8,
                Some(TransferType::Control) => 2u8,
                _ => 3u8,
            })
            &&& p.direction <==> e[10] >= 128
            &&& e[10] as int % 128 == p.endpoint
            &&& e[11] == p.device_id
            &&& order == ByteOrder::Little ==> e[12] + 256 * e[13] == p.bus_id
            &&& order == ByteOrder::Big ==> e[13] + 256 * e[12] == p.bus_id
            &&& order == ByteOrder::Little ==> e[32] + 256 * e[33] + 65_536 * e[34] + 16_777_216 * e[35] == p.data_length
            &&& order == ByteOrder::Big ==> e[35] + 256 * e[34] + 65_536 * e[33] + 16_777_216 * e[32] == p.data_length
            &&& forall|i: int| 36 <= i < 40 ==> #[trigger] e[i] == 0
        }),
{
    let b = p.endpoint;
    assert((b | 0x80u8) == b + 128) by (bit_vector)
        requires
            b < 128,
    ;
    let e = event_of(p, order);
    super::law_a_seed_event_keeps_the_length(p, order);
    assert(e.subrange(32, 36)[0] == e[32] && e.subrange(32, 36)[1] == e[33] && e.subrange(32, 36)[2] == e[34]
        && e.subrange(32, 36)[3] == e[35]);
    assert(e[10] == (if p.direction {
        p.endpoint | 0x80u8
    } else {
        p.endpoint
    }));
}

/// The events of some packets, one after another.
pub open spec fn all_events(packets: Seq<UsbPacket>, order: ByteOrder) -> Seq<u8>
    decreases packets.len(),
{
    if packets.len() == 0 {
        Seq::empty()
    } else {
        all_events(packets.drop_last(), order) + event_of(packets.last(), order)
    }
}

/// A seed trace is made of the events of exactly the callbacks, in their
/// order.
pub proof fn law_a_seed_trace_tells_the_callbacks(packets: Seq<UsbPacket>, order: ByteOrder)
    ensures
        seed_events(packets, order) == all_events(
            packets.filter(|p: UsbPacket| p.urb_type == UrbType::Callback),
            order,
        ),
    decreases packets.len(),
{
    reveal(Seq::filter);
    if packets.len() > 0 {
        law_a_seed_trace_tells_the_callbacks(packets.drop_last(), order);
        let kept = packets.drop_last().filter(|p: UsbPacket| p.urb_type == UrbType::Callback);
        if packets.last().urb_type == UrbType::Callback {
            assert(kept.push(packets.last()).drop_last() =~= kept);
        }
    }
}

proof fn lemma_walk_grows(before: Found, entries: Seq<Node>, dir: Seq<char>, name: Seq<char>)
    ensures
        before.paths.len() <= walked_for(before, entries, dir, name).paths.len(),
        forall|i: int|
            0 <= i < before.paths.len() ==> #[trigger] walked_for(before, entries, dir, name).paths[i]
                == before.paths[i],
    decreases entries,
{
    if entries.len() > 0 {
        let n = entries.len() - 1;
        let front = walked_for(before, entries.subrange(0, n), dir, name);
        lemma_walk_grows(before, entries.subrange(0, n), dir, name);
        let node = entries[n];
        let path = joined(dir, node.name@);
        let here = if node.name@ == name {
            Found { paths: front.paths.push(path), ..front }
        } else {
            front
        };
        if let Some(canon) = node.canonical {
            if let crate::sysfs::Content::Directory(children) = node.content {
                lemma_walk_grows((Found { seen: here.seen.push(canon@), ..here }), children@, path, name);
            }
        }
        let after = walked_for(before, entries, dir, name);
        assert forall|i: int| 0 <= i < before.paths.len() implies #[trigger] after.paths[i] == before.paths[i] by {
            assert(front.paths[i] == before.paths[i]);
            assert(here.paths[i] == front.paths[i]);
        }
    }
}

/// A search finds every entry of a directory that has the name.
pub proof fn law_an_entry_with_the_name_is_found(
    before: Found,
    entries: Seq<Node>,
    dir: Seq<char>,
    name: Seq<char>,
    i: int,
)
    requires
        0 <= i < entries.len(),
        entries[i].name@ == name,
    ensures
        walked_for(before, entries, dir, name).paths.contains(joined(dir, name)),
    decreases entries.len(),
{
    let n = entries.len() - 1;
    let rest = entries.subrange(0, n);
    let front = walked_for(before, rest, dir, name);
    let node = entries[n];
    let path = joined(dir, node.name@);
    let here = if node.name@ == name {
        Found { paths: front.paths.push(path), ..front }
    } else {
        front
    };
    let k: int = if i == n {
        here.paths.len() - 1
    } else {
        law_an_entry_with_the_name_is_found(before, rest, dir, name, i);
        choose|k: int| 0 <= k < front.paths.len() && front.paths[k] == joined(dir, name)
    };
    assert(here.paths[k] == joined(dir, name));
    if let Some(canon) = node.canonical {
        if let crate::sysfs::Content::Directory(children) = node.content {
            lemma_walk_grows((Found { seen: here.seen.push(canon@), ..here }), children@, path, name);
        }
    }
    assert(walked_for(before, entries, dir, name).paths[k] == joined(dir, name));
}

} // verus!
