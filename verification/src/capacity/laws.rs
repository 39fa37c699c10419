//! What a choke point promises, said of the devices below a hub: what they
//! ask, what the hub's link carries, and when the hub is listed.

use vstd::prelude::*;

use crate::connector::{attachment, PortFacts};
use crate::device::manager::UsbBus;
use crate::findings::{rows_of, RowFacts};
use crate::number::{
    all_digits, decimal, fixed_text, law_decimal_is_worth_its_number, law_fixed_text_shows_its_number,
    law_rounding_is_to_the_nearest, lemma_powers_of_ten, nearest, place_value, rounded, shows,
};
use crate::order::{lemma_lex_total, lemma_lex_transitive, lemma_sorted, sorted_by};

use super::{
    amount_text, asked, by_name, ceiling, choke_points, count_below, device_rate, first_three, hub_rate,
    hundredths_text, is_below, is_hub, largest_first, last_named, law_choke_points_are_worst_first, lemma_parent,
    parent_of, ratio_text, shares_below, stage_at, stage_text, stages, total_of, worst_first, Basis, Share, Stage,
};

verus! {

/// What is practically left of a rate, in hundredths of a bit per second:
/// seventy percent at Low Speed, eighty up to High Speed, eighty-five above.
pub open spec fn left_of(bps: nat) -> nat {
    if bps <= 1_500_000 {
        bps * 70
    } else if bps <= 480_000_000 {
        bps * 80
    } else {
        bps * 85
    }
}

/// What the rows below `at` ask, among the first `n` rows.
pub open spec fn asked_below(
    nodes: Seq<RowFacts>,
    ports: Map<Seq<char>, PortFacts>,
    basis: Basis,
    at: int,
    n: int,
) -> nat
    decreases n,
{
    if n <= 0 {
        0
    } else {
        asked_below(nodes, ports, basis, at, n - 1) + (if is_below(nodes, n - 1, at) {
            asked(nodes, ports, basis, n - 1)
        } else {
            0
        })
    }
}

proof fn lemma_total_below(nodes: Seq<RowFacts>, ports: Map<Seq<char>, PortFacts>, basis: Basis, at: int, n: int)
    ensures
        total_of(shares_below(nodes, ports, basis, at, n)) == asked_below(nodes, ports, basis, at, n),
    decreases n,
{
    if n > 0 {
        lemma_total_below(nodes, ports, basis, at, n - 1);
        let front = shares_below(nodes, ports, basis, at, n - 1);
        let demand = asked(nodes, ports, basis, n - 1);
        let share = Share { path: nodes[n - 1].name, demand };
        assert(front.push(share).drop_last() =~= front);
    }
}

proof fn lemma_count_below(nodes: Seq<RowFacts>, at: int, n: int)
    requires
        n >= 0,
    ensures
        count_below(nodes, at, n) == Seq::new(n as nat, |i: int| i).filter(|i: int| is_below(nodes, i, at)).len(),
    decreases n,
{
    reveal(Seq::filter);
    let all = Seq::new(n as nat, |i: int| i);
    if n > 0 {
        lemma_count_below(nodes, at, n - 1);
        assert(all.drop_last() =~= Seq::new((n - 1) as nat, |i: int| i));
        assert(all.last() == n - 1);
    }
}

/// A hub is listed exactly when it is no root hub, its link carries
/// something, and what the devices below it ask comes to at least one and a
/// quarter times that, give or take a billionth. The stage repeats the hub,
/// counts every row below it, and adds up what they ask.
pub proof fn law_a_hub_is_listed_when_its_subtree_asks_too_much(
    nodes: Seq<RowFacts>,
    ports: Map<Seq<char>, PortFacts>,
    basis: Basis,
    at: int,
)
    ensures
        ({
            let asked = asked_below(nodes, ports, basis, at, nodes.len() as int);
            let demand = if asked <= u128::MAX {
                asked
            } else {
                u128::MAX as nat
            };
            let capacity = left_of(hub_rate(nodes[at], basis, ceiling(nodes, basis, at)));
            let listed = attachment(nodes[at].name) is Some && is_hub(nodes, ports, at) && capacity > 0 && demand
                * 1_000_000_000 + capacity >= capacity * 1_250_000_000;
            &&& stage_at(nodes, ports, basis, at) is Some <==> listed
            &&& stage_at(nodes, ports, basis, at) matches Some(s) ==> {
                &&& s.bus == nodes[at].bus && s.address == nodes[at].address && s.path == nodes[at].name
                &&& s.port == Some(
                    (attachment(nodes[at].name)->0).0 + "-port"@ + decimal((attachment(nodes[at].name)->0).1),
                )
                &&& s.capacity == capacity
                &&& s.demand == demand
                &&& s.devices == Seq::new(nodes.len(), |i: int| i).filter(|i: int| is_below(nodes, i, at)).len()
            }
        }),
{
    lemma_total_below(nodes, ports, basis, at, nodes.len() as int);
    lemma_count_below(nodes, at, nodes.len() as int);
}

/// A hub asks nothing, and a hub is a row that owns a port or that another
/// row hangs on. Any other row asks what is practically left of its rate: at
/// the link basis that of its link.
pub proof fn law_a_leaf_asks_what_its_rate_leaves(
    nodes: Seq<RowFacts>,
    ports: Map<Seq<char>, PortFacts>,
    basis: Basis,
    i: int,
)
    ensures
        is_hub(nodes, ports, i) <==> (exists|j: int| 0 <= j < nodes.len() && #[trigger] parent_of(nodes, j) == Some(i))
            || exists|port: Seq<char>| #[trigger] ports.dom().contains(port) && ports[port].hub == nodes[i].name,
        is_hub(nodes, ports, i) ==> asked(nodes, ports, basis, i) == 0,
        !is_hub(nodes, ports, i) ==> asked(nodes, ports, basis, i) == left_of(
            device_rate(nodes[i], basis, ceiling(nodes, basis, i)),
        ),
        !is_hub(nodes, ports, i) ==> asked(nodes, ports, Basis::Link, i) == left_of(nodes[i].link.bps as nat),
        hub_rate(nodes[i], Basis::Link, ceiling(nodes, Basis::Link, i)) == nodes[i].link.bps,
        nodes[i].link.bps == 0 ==> device_rate(nodes[i], basis, ceiling(nodes, basis, i)) == 0,
{
}

/// The rate a row could have if nothing above it were slower: the larger of
/// what it states and its link.
pub open spec fn could_be(row: RowFacts) -> nat {
    if row.capability is Some && (row.capability->0).speed.bps > row.link.bps {
        (row.capability->0).speed.bps as nat
    } else {
        row.link.bps as nat
    }
}

proof fn lemma_ceiling(nodes: Seq<RowFacts>, i: int, p: int)
    requires
        is_below(nodes, i, p),
        hub_rate(nodes[p], Basis::Capability, ceiling(nodes, Basis::Capability, p)) > 0,
    ensures
        ceiling(nodes, Basis::Capability, i) matches Some(c) && c <= hub_rate(
            nodes[p],
            Basis::Capability,
            ceiling(nodes, Basis::Capability, p),
        ),
    decreases crate::findings::depth(nodes[i].name),
{
    lemma_parent(nodes, i);
    let q = parent_of(nodes, i)->0;
    if q != p {
        lemma_ceiling(nodes, q, p);
    }
}

proof fn lemma_ceiling_is_there(nodes: Seq<RowFacts>, i: int) -> (p: int)
    requires
        ceiling(nodes, Basis::Capability, i) is Some,
    ensures
        is_below(nodes, i, p),
        Some(hub_rate(nodes[p], Basis::Capability, ceiling(nodes, Basis::Capability, p))) == ceiling(
            nodes,
            Basis::Capability,
            i,
        ),
        ceiling(nodes, Basis::Capability, i)->0 > 0,
    decreases crate::findings::depth(nodes[i].name),
{
    lemma_parent(nodes, i);
    let q = parent_of(nodes, i)->0;
    if hub_rate(nodes[q], Basis::Capability, ceiling(nodes, Basis::Capability, q)) > 0 {
        q
    } else {
        lemma_ceiling_is_there(nodes, q)
    }
}

/// At the capability basis nothing outruns a hub above it whose rate is
/// known, and a row that does not reach what it could is held back by such a
/// hub.
pub proof fn law_nothing_outruns_the_hubs_above(nodes: Seq<RowFacts>, i: int)
    ensures
        ({
            let basis = Basis::Capability;
            let rate = hub_rate(nodes[i], basis, ceiling(nodes, basis, i));
            let own = if nodes[i].link.bps <= 480_000_000 {
                nodes[i].link.bps as nat
            } else {
                could_be(nodes[i])
            };
            &&& rate <= own
            &&& forall|p: int|
                #[trigger] is_below(nodes, i, p) && hub_rate(nodes[p], basis, ceiling(nodes, basis, p)) > 0 ==> rate
                    <= hub_rate(nodes[p], basis, ceiling(nodes, basis, p))
            &&& rate < own ==> exists|p: int|
                #[trigger] is_below(nodes, i, p) && rate == hub_rate(nodes[p], basis, ceiling(nodes, basis, p)) && rate
                    > 0
        }),
        ({
            let basis = Basis::Capability;
            let rate = device_rate(nodes[i], basis, ceiling(nodes, basis, i));
            let own = if nodes[i].link.bps == 0 {
                0
            } else {
                could_be(nodes[i])
            };
            &&& rate <= own
            &&& forall|p: int|
                #[trigger] is_below(nodes, i, p) && hub_rate(nodes[p], basis, ceiling(nodes, basis, p)) > 0 ==> rate
                    <= hub_rate(nodes[p], basis, ceiling(nodes, basis, p))
            &&& rate < own ==> exists|p: int|
                #[trigger] is_below(nodes, i, p) && rate == hub_rate(nodes[p], basis, ceiling(nodes, basis, p)) && rate
                    > 0
        }),
{
    let basis = Basis::Capability;
    assert forall|p: int|
        #[trigger] is_below(nodes, i, p) && hub_rate(nodes[p], basis, ceiling(nodes, basis, p)) > 0 implies (
    ceiling(nodes, basis, i) matches Some(c) && c <= hub_rate(nodes[p], basis, ceiling(nodes, basis, p))) by {
        lemma_ceiling(nodes, i, p);
    }
    if ceiling(nodes, basis, i) is Some {
        let p = lemma_ceiling_is_there(nodes, i);
        assert(is_below(nodes, i, p));
    }
}

proof fn lemma_last_named_is(nodes: Seq<RowFacts>, name: Seq<char>, p: int)
    requires
        0 <= p < nodes.len(),
        nodes[p].name == name,
        forall|j: int| p < j < nodes.len() ==> (#[trigger] nodes[j]).name != name,
    ensures
        last_named(nodes, name) == Some(p),
    decreases nodes.len(),
{
    if p < nodes.len() - 1 {
        assert(nodes[nodes.len() - 1].name != name);
        let front = nodes.drop_last();
        assert forall|j: int| p < j < front.len() implies (#[trigger] front[j]).name != name by {
            assert(nodes[j].name != name);
        }
        lemma_last_named_is(front, name, p);
    }
}

proof fn lemma_last_named_none(nodes: Seq<RowFacts>, name: Seq<char>)
    requires
        forall|j: int| 0 <= j < nodes.len() ==> (#[trigger] nodes[j]).name != name,
    ensures
        last_named(nodes, name) is None,
    decreases nodes.len(),
{
    if nodes.len() > 0 {
        assert(nodes[nodes.len() - 1].name != name);
        let front = nodes.drop_last();
        assert forall|j: int| 0 <= j < front.len() implies (#[trigger] front[j]).name != name by {
            assert(nodes[j].name != name);
        }
        lemma_last_named_none(front, name);
    }
}

/// A row hangs on the row that its own name puts above it, and is below that
/// row and below all that row is below; a row whose hub is not there is below
/// nothing.
pub proof fn law_a_row_is_below_the_hub_it_is_named_for(nodes: Seq<RowFacts>, i: int, p: int, at: int)
    requires
        attachment(nodes[i].name) is Some,
        0 <= p < nodes.len(),
    ensures
        nodes[p].name == (attachment(nodes[i].name)->0).0 && (forall|j: int|
            p < j < nodes.len() ==> (#[trigger] nodes[j]).name != nodes[p].name) ==> (is_below(nodes, i, at) <==> at == p
            || is_below(nodes, p, at)),
        (forall|j: int| 0 <= j < nodes.len() ==> (#[trigger] nodes[j]).name != (attachment(nodes[i].name)->0).0)
            ==> !is_below(nodes, i, at),
{
    let hub = (attachment(nodes[i].name)->0).0;
    if nodes[p].name == hub && forall|j: int| p < j < nodes.len() ==> (#[trigger] nodes[j]).name != nodes[p].name {
        lemma_last_named_is(nodes, hub, p);
        lemma_parent(nodes, i);
    }
    if forall|j: int| 0 <= j < nodes.len() ==> (#[trigger] nodes[j]).name != hub {
        lemma_last_named_none(nodes, hub);
    }
}

proof fn lemma_shares_have(
    nodes: Seq<RowFacts>,
    ports: Map<Seq<char>, PortFacts>,
    basis: Basis,
    at: int,
    n: int,
    i: int,
)
    requires
        0 <= i < n,
        is_below(nodes, i, at),
        asked(nodes, ports, basis, i) > 0,
    ensures
        shares_below(nodes, ports, basis, at, n).contains(
            (Share { path: nodes[i].name, demand: asked(nodes, ports, basis, i) }),
        ),
    decreases n,
{
    let all = shares_below(nodes, ports, basis, at, n);
    let share = Share { path: nodes[i].name, demand: asked(nodes, ports, basis, i) };
    if i == n - 1 {
        assert(all.last() == share);
    } else {
        lemma_shares_have(nodes, ports, basis, at, n - 1, i);
        let front = shares_below(nodes, ports, basis, at, n - 1);
        let k = choose|k: int| 0 <= k < front.len() && front[k] == share;
        assert(all[k] == share);
    }
}

proof fn lemma_shares_are(
    nodes: Seq<RowFacts>,
    ports: Map<Seq<char>, PortFacts>,
    basis: Basis,
    at: int,
    n: int,
    k: int,
) -> (i: int)
    requires
        0 <= k < shares_below(nodes, ports, basis, at, n).len(),
    ensures
        0 <= i < n,
        is_below(nodes, i, at),
        asked(nodes, ports, basis, i) > 0,
        shares_below(nodes, ports, basis, at, n)[k] == (Share {
            path: nodes[i].name,
            demand: asked(nodes, ports, basis, i),
        }),
    decreases n,
{
    let front = shares_below(nodes, ports, basis, at, n - 1);
    if k < front.len() {
        lemma_shares_are(nodes, ports, basis, at, n - 1, k)
    } else {
        n - 1
    }
}

proof fn lemma_largest_first_is_an_order()
    ensures
        crate::order::is_order(largest_first()),
{
    let le = largest_first();
    assert forall|a: Share, b: Share| #[trigger] le(a, b) || le(b, a) by {
        lemma_lex_total(a.path, b.path);
    }
    assert forall|a: Share, b: Share, c: Share| #[trigger] le(a, b) && #[trigger] le(b, c) implies le(a, c) by {
        if a.demand == b.demand && b.demand == c.demand && a.path != b.path && b.path != c.path {
            lemma_lex_transitive(a.path, b.path, c.path);
        }
    }
}

/// The contributors that a stage names are rows below the hub with what they
/// ask, the largest first, three at most; a row that is not named asks no
/// more than any that is.
#[verifier::rlimit(40)]
pub proof fn law_the_largest_contributors_are_named(
    nodes: Seq<RowFacts>,
    ports: Map<Seq<char>, PortFacts>,
    basis: Basis,
    at: int,
)
    requires
        stage_at(nodes, ports, basis, at) is Some,
    ensures
        ({
            let top = (stage_at(nodes, ports, basis, at)->0).top;
            &&& top.len() <= 3
            &&& forall|k: int|
                0 <= k < top.len() ==> exists|i: int|
                    0 <= i < nodes.len() && #[trigger] is_below(nodes, i, at) && (#[trigger] top[k]).path
                        == nodes[i].name && top[k].demand == asked(nodes, ports, basis, i) && top[k].demand > 0
            &&& forall|k: int, l: int|
                0 <= k < l < top.len() ==> (#[trigger] top[k]).demand >= (#[trigger] top[l]).demand
            &&& forall|i: int|
                0 <= i < nodes.len() && #[trigger] is_below(nodes, i, at) && asked(nodes, ports, basis, i) > 0
                    ==> top.contains((Share { path: nodes[i].name, demand: asked(nodes, ports, basis, i) })) || (top.len()
                    == 3 && forall|k: int|
                    0 <= k < 3 ==> (#[trigger] top[k]).demand >= asked(nodes, ports, basis, i))
        }),
{
    broadcast use vstd::seq_lib::group_to_multiset_ensures;

    let n = nodes.len() as int;
    let all = shares_below(nodes, ports, basis, at, n);
    let le = largest_first();
    lemma_largest_first_is_an_order();
    lemma_sorted(all, le);
    let ranked = sorted_by(all, le);
    let top = first_three(ranked);
    assert((stage_at(nodes, ports, basis, at)->0).top == top);
    assert forall|k: int| 0 <= k < top.len() implies top[k] == ranked[k] by {}
    assert forall|k: int| 0 <= k < top.len() implies exists|i: int|
        0 <= i < nodes.len() && #[trigger] is_below(nodes, i, at) && (#[trigger] top[k]).path == nodes[i].name
            && top[k].demand == asked(nodes, ports, basis, i) && top[k].demand > 0 by {
        assert(ranked.contains(ranked[k]));
        assert(ranked.to_multiset().count(ranked[k]) > 0);
        assert(all.contains(ranked[k]));
        let m = choose|m: int| 0 <= m < all.len() && all[m] == ranked[k];
        let i = lemma_shares_are(nodes, ports, basis, at, n, m);
        assert(is_below(nodes, i, at));
    }
    assert forall|k: int, l: int| 0 <= k < l < top.len() implies (#[trigger] top[k]).demand >= (
    #[trigger] top[l]).demand by {
        assert(le(ranked[k], ranked[l]));
    }
    assert forall|i: int|
        0 <= i < nodes.len() && #[trigger] is_below(nodes, i, at) && asked(nodes, ports, basis, i) > 0 implies (
    top.contains((Share { path: nodes[i].name, demand: asked(nodes, ports, basis, i) })) || (top.len() == 3
        && forall|k: int| 0 <= k < 3 ==> (#[trigger] top[k]).demand >= asked(nodes, ports, basis, i))) by {
        let share = Share { path: nodes[i].name, demand: asked(nodes, ports, basis, i) };
        lemma_shares_have(nodes, ports, basis, at, n, i);
        assert(all.to_multiset().count(share) > 0);
        assert(ranked.contains(share));
        let m = choose|m: int| 0 <= m < ranked.len() && ranked[m] == share;
        if m < top.len() {
            assert(top[m] == share);
        } else {
            assert(top.len() == 3);
            assert forall|k: int| 0 <= k < 3 implies (#[trigger] top[k]).demand >= share.demand by {
                assert(le(ranked[k], ranked[m]));
            }
        }
    }
}

proof fn lemma_stages_have(nodes: Seq<RowFacts>, ports: Map<Seq<char>, PortFacts>, basis: Basis, n: int, at: int)
    requires
        0 <= at < n,
        stage_at(nodes, ports, basis, at) is Some,
    ensures
        stages(nodes, ports, basis, n).contains(stage_at(nodes, ports, basis, at)->0),
    decreases n,
{
    let all = stages(nodes, ports, basis, n);
    let s = stage_at(nodes, ports, basis, at)->0;
    if at == n - 1 {
        assert(all.last() == s);
    } else {
        lemma_stages_have(nodes, ports, basis, n - 1, at);
        let front = stages(nodes, ports, basis, n - 1);
        let k = choose|k: int| 0 <= k < front.len() && front[k] == s;
        assert(all[k] == s);
    }
}

proof fn lemma_stages_are(
    nodes: Seq<RowFacts>,
    ports: Map<Seq<char>, PortFacts>,
    basis: Basis,
    n: int,
    k: int,
) -> (at: int)
    requires
        0 <= k < stages(nodes, ports, basis, n).len(),
    ensures
        0 <= at < n,
        stage_at(nodes, ports, basis, at) == Some(stages(nodes, ports, basis, n)[k]),
    decreases n,
{
    let front = stages(nodes, ports, basis, n - 1);
    if k < front.len() {
        lemma_stages_are(nodes, ports, basis, n - 1, k)
    } else {
        n - 1
    }
}

proof fn lemma_stages_len(nodes: Seq<RowFacts>, ports: Map<Seq<char>, PortFacts>, basis: Basis, n: int)
    requires
        n >= 0,
    ensures
        stages(nodes, ports, basis, n).len() == Seq::new(n as nat, |i: int| i).filter(
            |i: int| stage_at(nodes, ports, basis, i) is Some,
        ).len(),
    decreases n,
{
    reveal(Seq::filter);
    let all = Seq::new(n as nat, |i: int| i);
    if n > 0 {
        lemma_stages_len(nodes, ports, basis, n - 1);
        assert(all.drop_last() =~= Seq::new((n - 1) as nat, |i: int| i));
        assert(all.last() == n - 1);
    }
}

/// The rows that choke points are looked for among.
pub open spec fn nodes_of(buses: Seq<UsbBus>) -> Seq<RowFacts> {
    sorted_by(rows_of(buses), by_name())
}

/// Every choke point is listed once, and nothing else; one that is choked
/// more never stands behind one that is choked less.
pub proof fn law_every_choke_point_is_listed(buses: Seq<UsbBus>, ports: Map<Seq<char>, PortFacts>, basis: Basis)
    ensures
        ({
            let nodes = nodes_of(buses);
            let listed = choke_points(buses, ports, basis);
            &&& forall|at: int|
                0 <= at < nodes.len() ==> ((#[trigger] stage_at(nodes, ports, basis, at)) matches Some(s)
                    ==> listed.contains(s))
            &&& forall|k: int|
                0 <= k < listed.len() ==> exists|at: int|
                    0 <= at < nodes.len() && #[trigger] stage_at(nodes, ports, basis, at) == Some(#[trigger] listed[k])
            &&& listed.len() == Seq::new(nodes.len(), |i: int| i).filter(
                |i: int| stage_at(nodes, ports, basis, i) is Some,
            ).len()
            &&& forall|k: int, l: int|
                0 <= k < l < listed.len() ==> (#[trigger] listed[k]).demand * (#[trigger] listed[l]).capacity
                    >= listed[l].demand * listed[k].capacity
        }),
        forall|x: RowFacts| #[trigger] nodes_of(buses).contains(x) <==> rows_of(buses).contains(x),
{
    broadcast use vstd::seq_lib::group_to_multiset_ensures;

    let rows = rows_of(buses);
    let nodes = nodes_of(buses);
    lemma_by_name_is_an_order();
    lemma_sorted(rows, by_name());
    assert forall|x: RowFacts| #[trigger] nodes.contains(x) <==> rows.contains(x) by {
        assert(nodes.contains(x) <==> nodes.to_multiset().count(x) > 0);
        assert(rows.contains(x) <==> rows.to_multiset().count(x) > 0);
    }
    let n = nodes.len() as int;
    let found = stages(nodes, ports, basis, n);
    let listed = choke_points(buses, ports, basis);
    law_choke_points_are_worst_first(buses, ports, basis);
    super::lemma_worst_first_is_an_order();
    lemma_sorted(found, worst_first());
    lemma_stages_len(nodes, ports, basis, n);
    assert forall|at: int| 0 <= at < nodes.len() implies ((#[trigger] stage_at(nodes, ports, basis, at)) matches Some(s)
        ==> listed.contains(s)) by {
        if let Some(s) = stage_at(nodes, ports, basis, at) {
            lemma_stages_have(nodes, ports, basis, n, at);
            assert(found.to_multiset().count(s) > 0);
            assert(listed.to_multiset().count(s) > 0);
        }
    }
    assert forall|k: int| 0 <= k < listed.len() implies exists|at: int|
        0 <= at < nodes.len() && #[trigger] stage_at(nodes, ports, basis, at) == Some(#[trigger] listed[k]) by {
        assert(listed.contains(listed[k]));
        assert(listed.to_multiset().count(listed[k]) > 0);
        assert(found.contains(listed[k]));
        let m = choose|m: int| 0 <= m < found.len() && found[m] == listed[k];
        let at = lemma_stages_are(nodes, ports, basis, n, m);
        assert(stage_at(nodes, ports, basis, at) == Some(listed[k]));
    }
    assert forall|k: int, l: int| 0 <= k < l < listed.len() implies (#[trigger] listed[k]).demand * (
    #[trigger] listed[l]).capacity >= listed[l].demand * listed[k].capacity by {
        assert(worst_first()(listed[k], listed[l]));
        let a = choose|at: int| 0 <= at < nodes.len() && #[trigger] stage_at(nodes, ports, basis, at) == Some(listed[k]);
        let b = choose|at: int| 0 <= at < nodes.len() && #[trigger] stage_at(nodes, ports, basis, at) == Some(listed[l]);
        assert(listed[k].capacity > 0);
        assert(listed[l].capacity > 0);
    }
}

proof fn lemma_by_name_is_an_order()
    ensures
        crate::order::is_order(by_name()),
{
    let le = by_name();
    assert forall|a: RowFacts, b: RowFacts| #[trigger] le(a, b) || le(b, a) by {
        lemma_lex_total(a.name, b.name);
    }
    assert forall|a: RowFacts, b: RowFacts, c: RowFacts| #[trigger] le(a, b) && #[trigger] le(b, c) implies le(a, c) by {
        if a.name != b.name && b.name != c.name {
            lemma_lex_transitive(a.name, b.name, c.name);
        }
    }
}

/// Whether `t` writes `n` hundredths, without zeros at the end of what stands
/// behind the point.
pub open spec fn writes_hundredths(t: Seq<char>, n: int) -> bool {
    ||| all_digits(t) && place_value(t) * 100 == n
    ||| shows(t, 1, n / 10) && n % 10 == 0 && n % 100 != 0
    ||| shows(t, 2, n) && n % 10 != 0
}

proof fn lemma_hundredths(n: nat)
    ensures
        writes_hundredths(hundredths_text(n), n as int),
{
    lemma_powers_of_ten();
    if n % 100 == 0 {
        law_decimal_is_worth_its_number(n / 100);
    } else if n % 10 == 0 {
        law_fixed_text_shows_its_number(n / 10, 10, 1);
    } else {
        law_fixed_text_shows_its_number(n, 100, 2);
    }
}

/// An amount reads back as the nearest hundredth of a gigabit or, below one,
/// of a megabit per second.
pub proof fn law_an_amount_reads_back(amount: nat) -> (t: Seq<char>)
    ensures
        amount == 0 ==> amount_text(amount) == "?"@,
        0 < amount < 100_000_000_000 ==> amount_text(amount) == t + "M"@ && exists|n: int|
            #[trigger] writes_hundredths(t, n) && nearest(n, amount as int, 1_000_000),
        amount >= 100_000_000_000 ==> amount_text(amount) == t + "G"@ && exists|n: int|
            #[trigger] writes_hundredths(t, n) && nearest(n, amount as int, 1_000_000_000),
{
    let unit: nat = if amount >= 100_000_000_000 {
        1_000_000_000
    } else {
        1_000_000
    };
    let n = rounded(amount, unit);
    law_rounding_is_to_the_nearest(amount, unit);
    lemma_hundredths(n);
    assert(writes_hundredths(hundredths_text(n), n as int));
    hundredths_text(n)
}

/// A ratio reads back as the nearest hundredth of demand over capacity.
pub proof fn law_a_ratio_reads_back(demand: nat, capacity: nat) -> (n: int)
    requires
        capacity > 0,
    ensures
        shows(ratio_text(demand, capacity), 2, n),
        nearest(n, demand as int * 100, capacity as int),
{
    let whole = demand / capacity;
    let rest = demand % capacity;
    let hundredths = rounded(rest * 100, capacity);
    law_rounding_is_to_the_nearest(rest * 100, capacity);
    lemma_powers_of_ten();
    assert(demand == whole * capacity + rest && rest < capacity) by (nonlinear_arith)
        requires
            whole == demand / capacity,
            rest == demand % capacity,
            capacity > 0,
    ;
    assert(hundredths <= 100) by (nonlinear_arith)
        requires
            rest < capacity,
            capacity > 0,
            2 * (hundredths * capacity - rest * 100) <= capacity,
    ;
    let n = whole * 100 + hundredths;
    law_fixed_text_shows_its_number(n, 100, 2);
    let t = ratio_text(demand, capacity);
    if hundredths >= 100 {
        assert(n / 100 == whole + 1 && n % 100 == 0);
        reveal_strlit(".00");
        assert(decimal(0) =~= seq!['0']);
        let zeros = Seq::new((2 - decimal(0).len()) as nat, |i: int| '0');
        assert(crate::number::padded_decimal(0, 2) =~= zeros + decimal(0));
        assert(t =~= fixed_text(n, 100, 2));
    } else {
        assert(n / 100 == whole && n % 100 == hundredths);
    }
    assert(n * capacity - demand * 100 == hundredths * capacity - rest * 100) by (nonlinear_arith)
        requires
            n == whole * 100 + hundredths,
            demand == whole * capacity + rest,
    ;
    n as int
}

/// The sentence about a choke point gives what the link carries, how many
/// devices are below, what they ask, and how many times that is too much.
pub proof fn law_a_choke_point_says_what_it_found(s: Stage) -> (parts: (Seq<char>, Seq<char>))
    requires
        s.capacity > 0,
    ensures
        stage_text(s) == amount_text(s.capacity) + " carries "@ + parts.0 + " devices asking "@ + amount_text(s.demand)
            + ": "@ + parts.1 + "x"@,
        all_digits(parts.0) && place_value(parts.0) == s.devices,
        exists|n: int| #[trigger] shows(parts.1, 2, n) && nearest(n, s.demand as int * 100, s.capacity as int),
{
    law_decimal_is_worth_its_number(s.devices);
    let n = law_a_ratio_reads_back(s.demand, s.capacity);
    (decimal(s.devices), ratio_text(s.demand, s.capacity))
}

} // verus!
