//! Choke points: the theoretical load every hub's link would carry if every
//! device below it pushed what it can, against that link's own capacity. No
//! measured traffic: the tree comes from the device rows, parents from sysfs
//! names, rates from the rows. Amounts are in hundredths of a bit per second,
//! in which every practical rate is a whole number.

pub mod laws;
mod ratio;

use vstd::prelude::*;

use crate::capacity::ratio::ratio_lt;
use crate::connector::{
    attachment, law_attachment_shortens_the_chain, owns_a_port, port_name, port_of_device, port_text, PortFacts,
    PortIndex,
};
use crate::device::manager::{DeviceManager, UsbBus};
use crate::device::text_of;
use crate::findings::{collect_rows, depth, row_facts, rows_of, Row, RowFacts, HIGH_SPEED};
use crate::number::{decimal, fixed_text, round_ratio, rounded, to_decimal, to_fixed, to_wide_decimal};
use crate::order::{
    chars_lt, is_order, is_sorted, lemma_lex_total, lemma_lex_transitive, lemma_sorted, lemma_sorted_is_there,
    lemma_sorted_mapped, lex_le, rank, sort, sorted, sorted_by, Ranked,
};
use crate::speed::{practical_centibits, UsbSpeed};
use crate::text::{extend, extend_str, from_chars, str_eq, to_chars};

verus! {

/// The breathing room, in thousandths of a millionth: a hub is listed only
/// when its subtree asks at least this many times its link's practical
/// capacity. Below it, a 480M hub carrying a flash drive and a mouse (1.00x)
/// stays quiet.
pub const CHOKE_FLOOR: u128 = 1_250_000_000;

/// How far below [`CHOKE_FLOOR`] still counts as reaching it.
pub const FLOOR_TOLERANCE: u128 = 1;

/// What `CHOKE_FLOOR` counts in.
pub const FLOOR_UNIT: u128 = 1_000_000_000;

/// Which rate every device is assumed to push.
#[derive(Debug, Clone, Copy, PartialEq, Eq, Structural)]
pub enum Basis {
    /// The rate each device has now, on both sides.
    Link,
    /// The topology as it could link: a leaf's capability and a SuperSpeed
    /// hub's capability as its capacity, each bounded by the hubs above it.
    Capability,
}

impl Default for Basis {
    fn default() -> (r: Basis)
        ensures
            r == Basis::Link,
    {
        Basis::Link
    }
}

impl Basis {
    /// The JSON value and the `--demand` spelling.
    pub fn as_str(self) -> (r: &'static str)
        ensures
            r@ == (match self {
                Basis::Link => "link"@,
                Basis::Capability => "capability"@,
            }),
    {
        match self {
            Basis::Link => "link",
            Basis::Capability => "capability",
        }
    }

    /// The other basis.
    pub open spec fn other(self) -> Basis {
        match self {
            Basis::Link => Basis::Capability,
            Basis::Capability => Basis::Link,
        }
    }

    /// The other basis.
    pub fn toggled(self) -> (r: Basis)
        ensures
            r == self.other(),
    {
        match self {
            Basis::Link => Basis::Capability,
            Basis::Capability => Basis::Link,
        }
    }
}

/// One device below a choked hub and what it asks, in hundredths of a bit
/// per second.
#[derive(Debug, PartialEq, Eq)]
pub struct Contributor {
    pub path: String,
    pub demand: u128,
}

/// What a `Contributor` says.
pub struct Share {
    pub path: Seq<char>,
    pub demand: nat,
}

impl View for Contributor {
    type V = Share;

    open spec fn view(&self) -> Share {
        Share { path: self.path@, demand: self.demand as nat }
    }
}

/// A hub whose subtree asks more of its link than the link can carry.
#[derive(Debug)]
pub struct Chokepoint {
    pub bus: u8,
    pub address: u8,
    /// The hub's sysfs name, `3-1`.
    pub path: String,
    /// The kernel port name of the hub's link, `usb3-port1`: the same key
    /// the findings carry, so a script can join the two lists.
    pub port: Option<String>,
    /// In hundredths of a bit per second.
    pub capacity: u128,
    /// In hundredths of a bit per second.
    pub demand: u128,
    /// Every device below the hub, hubs included.
    pub devices: usize,
    /// The largest contributors, at most three, demand descending then path.
    pub top: Vec<Contributor>,
}

/// What a `Chokepoint` says.
pub struct Stage {
    pub bus: u8,
    pub address: u8,
    pub path: Seq<char>,
    pub port: Option<Seq<char>>,
    pub capacity: nat,
    pub demand: nat,
    pub devices: nat,
    pub top: Seq<Share>,
}

/// What several contributors say.
pub open spec fn shares(v: Seq<Contributor>) -> Seq<Share> {
    v.map_values(|c: Contributor| c@)
}

impl View for Chokepoint {
    type V = Stage;

    open spec fn view(&self) -> Stage {
        Stage {
            bus: self.bus,
            address: self.address,
            path: self.path@,
            port: text_of(self.port),
            capacity: self.capacity as nat,
            demand: self.demand as nat,
            devices: self.devices as nat,
            top: shares(self.top@),
        }
    }
}

/// Hundredths with trailing zeros after the point left out.
pub open spec fn hundredths_text(n: nat) -> Seq<char> {
    if n % 100 == 0 {
        decimal(n / 100)
    } else if n % 10 == 0 {
        fixed_text(n / 10, 10, 1)
    } else {
        fixed_text(n, 100, 2)
    }
}

/// An amount in hundredths of a bit per second as `384M`, `1.17G`: two places
/// at most, `?` when nothing is known.
pub open spec fn amount_text(amount: nat) -> Seq<char> {
    if amount == 0 {
        "?"@
    } else if amount >= 100_000_000_000 {
        hundredths_text(rounded(amount, 1_000_000_000)) + "G"@
    } else {
        hundredths_text(rounded(amount, 1_000_000)) + "M"@
    }
}

fn to_hundredths_text(n: u128) -> (r: Vec<char>)
    ensures
        r@ == hundredths_text(n as nat),
{
    if n % 100 == 0 {
        to_wide_decimal(n / 100)
    } else if n % 10 == 0 {
        to_fixed(n / 10, 10, 1)
    } else {
        to_fixed(n, 100, 2)
    }
}

/// An amount in hundredths of a bit per second as `384M`, `1.17G`.
pub fn short_amount(amount: u128) -> (r: String)
    ensures
        r@ == amount_text(amount as nat),
{
    let mut r: Vec<char>;
    if amount == 0 {
        r = to_chars("?");
    } else if amount >= 100_000_000_000 {
        r = to_hundredths_text(round_ratio(amount, 1_000_000_000));
        extend_str(&mut r, "G");
    } else {
        r = to_hundredths_text(round_ratio(amount, 1_000_000));
        extend_str(&mut r, "M");
    }
    from_chars(&r)
}

/// `demand` over `capacity` in hundredths, as `3.05`.
pub open spec fn ratio_text(demand: nat, capacity: nat) -> Seq<char> {
    let whole = demand / capacity;
    let hundredths = rounded(demand % capacity * 100, capacity);
    if hundredths >= 100 {
        decimal(whole + 1) + ".00"@
    } else {
        decimal(whole).push('.') + crate::number::padded_decimal(hundredths, 2)
    }
}

/// The sentence about a choke point.
pub open spec fn stage_text(s: Stage) -> Seq<char> {
    amount_text(s.capacity) + " carries "@ + decimal(s.devices) + " devices asking "@ + amount_text(s.demand) + ": "@
        + ratio_text(s.demand, s.capacity) + "x"@
}

impl Chokepoint {
    /// `384M carries 9 devices asking 1.17G: 3.05x`.
    pub fn message(&self) -> (r: String)
        requires
            0 < self.capacity <= MAX_CAPACITY,
        ensures
            r@ == stage_text(self@),
    {
        let capacity = short_amount(self.capacity);
        let mut r = to_chars(capacity.as_str());
        extend_str(&mut r, " carries ");
        let devices = to_decimal(self.devices as u64);
        extend(&mut r, &devices);
        extend_str(&mut r, " devices asking ");
        let demand = short_amount(self.demand);
        extend_str(&mut r, demand.as_str());
        extend_str(&mut r, ": ");
        let ratio = self.ratio();
        extend(&mut r, &ratio);
        extend_str(&mut r, "x");
        from_chars(&r)
    }

    fn ratio(&self) -> (r: Vec<char>)
        requires
            0 < self.capacity <= MAX_CAPACITY,
        ensures
            r@ == ratio_text(self.demand as nat, self.capacity as nat),
    {
        let whole = self.demand / self.capacity;
        let rest = self.demand % self.capacity;
        let hundredths = round_ratio(rest * 100, self.capacity);
        let mut r: Vec<char>;
        if hundredths >= 100 {
            proof {
                if rest == 0 {
                    assert(0nat / self.capacity as nat == 0 && 0nat % self.capacity as nat == 0);
                }
                assert(whole + 1 <= self.demand) by (nonlinear_arith)
                    requires
                        whole == self.demand / self.capacity,
                        rest == self.demand % self.capacity,
                        0 < rest < self.capacity,
                ;
            }
            r = to_wide_decimal(whole + 1);
            extend_str(&mut r, ".00");
        } else {
            r = to_wide_decimal(whole);
            r.push('.');
            let tail = crate::number::to_padded_decimal(hundredths as u64, 2);
            extend(&mut r, &tail);
        }
        r
    }
}

/// More than any link can practically carry.
pub const MAX_CAPACITY: u128 = 0x80_0000_0000_0000_0000;

/// The smaller of a rate and what bounds it.
pub open spec fn bounded(rate: nat, bound: Option<nat>) -> nat {
    match bound {
        Some(b) => if b < rate {
            b
        } else {
            rate
        },
        None => rate,
    }
}

/// The larger of a stated capability and the link.
pub open spec fn best_rate(row: RowFacts) -> nat {
    match row.capability {
        Some(c) => if c.speed.bps > row.link.bps {
            c.speed.bps as nat
        } else {
            row.link.bps as nat
        },
        None => row.link.bps as nat,
    }
}

/// The rate a hub's link is taken to carry before efficiency: at the
/// capability basis never more than `bound`, the tightest capacity rate of
/// the hubs above it, because a hub's link cannot come up faster than the
/// port it is plugged into. A USB 2 half keeps its link whatever it
/// advertises. An unknown link is zero at both bases.
pub open spec fn hub_rate(row: RowFacts, basis: Basis, bound: Option<nat>) -> nat {
    match basis {
        Basis::Link => row.link.bps as nat,
        Basis::Capability => if row.link.bps <= HIGH_SPEED {
            bounded(row.link.bps as nat, bound)
        } else {
            bounded(best_rate(row), bound)
        },
    }
}

/// The rate a leaf is taken to push before efficiency: at the capability
/// basis the larger of its capability and its link, within `bound`. An
/// unknown link asks nothing at either basis.
pub open spec fn device_rate(row: RowFacts, basis: Basis, bound: Option<nat>) -> nat {
    match basis {
        Basis::Link => row.link.bps as nat,
        Basis::Capability => if row.link.bps == 0 {
            0
        } else {
            bounded(best_rate(row), bound)
        },
    }
}

/// The last row called `name`.
pub open spec fn last_named(nodes: Seq<RowFacts>, name: Seq<char>) -> Option<int>
    decreases nodes.len(),
{
    if nodes.len() == 0 {
        None
    } else if nodes.last().name == name {
        Some(nodes.len() - 1)
    } else {
        last_named(nodes.drop_last(), name)
    }
}

/// The hub that a row hangs on.
pub open spec fn parent_of(nodes: Seq<RowFacts>, i: int) -> Option<int> {
    match attachment(nodes[i].name) {
        Some((hub, _)) => last_named(nodes, hub),
        None => None,
    }
}

proof fn lemma_last_named(nodes: Seq<RowFacts>, name: Seq<char>)
    ensures
        last_named(nodes, name) matches Some(p) ==> 0 <= p < nodes.len() && nodes[p].name == name,
    decreases nodes.len(),
{
    if nodes.len() > 0 {
        lemma_last_named(nodes.drop_last(), name);
    }
}

/// A row hangs on a row that is nearer to the root hub.
pub proof fn lemma_parent(nodes: Seq<RowFacts>, i: int)
    ensures
        parent_of(nodes, i) matches Some(p) ==> 0 <= p < nodes.len() && depth(nodes[p].name) < depth(
            nodes[i].name,
        ),
{
    if let Some((hub, _)) = attachment(nodes[i].name) {
        law_attachment_shortens_the_chain(nodes[i].name);
        lemma_last_named(nodes, hub);
    }
}

/// The tightest capacity rate of the hubs above a row; none when nothing
/// bounds it. A hub of unknown rate bounds nothing.
pub open spec fn ceiling(nodes: Seq<RowFacts>, basis: Basis, i: int) -> Option<nat>
    decreases depth(nodes[i].name),
{
    match parent_of(nodes, i) {
        None => None,
        Some(p) => {
            proof {
                lemma_parent(nodes, i);
            }
            let above = ceiling(nodes, basis, p);
            let rate = hub_rate(nodes[p], basis, above);
            if basis == Basis::Capability && rate > 0 {
                Some(rate)
            } else {
                above
            }
        },
    }
}

/// Whether row `i` is somewhere below row `at`.
pub open spec fn is_below(nodes: Seq<RowFacts>, i: int, at: int) -> bool
    decreases depth(nodes[i].name),
{
    match parent_of(nodes, i) {
        None => false,
        Some(p) => {
            proof {
                lemma_parent(nodes, i);
            }
            p == at || is_below(nodes, p, at)
        },
    }
}

/// Whether something hangs on row `at`.
pub open spec fn has_child(nodes: Seq<RowFacts>, at: int) -> bool {
    exists|i: int| 0 <= i < nodes.len() && #[trigger] parent_of(nodes, i) == Some(at)
}

/// A hub is a device that owns port objects or has children.
pub open spec fn is_hub(nodes: Seq<RowFacts>, ports: Map<Seq<char>, PortFacts>, at: int) -> bool {
    has_child(nodes, at) || owns_a_port(ports, nodes[at].name)
}

/// What a row asks of the hubs above it. A hub is not a traffic source.
pub open spec fn asked(nodes: Seq<RowFacts>, ports: Map<Seq<char>, PortFacts>, basis: Basis, i: int) -> nat {
    if is_hub(nodes, ports, i) {
        0
    } else {
        practical_centibits(device_rate(nodes[i], basis, ceiling(nodes, basis, i)))
    }
}

/// The shares of those among the first `n` rows that are below `at` and ask
/// for something.
pub open spec fn shares_below(
    nodes: Seq<RowFacts>,
    ports: Map<Seq<char>, PortFacts>,
    basis: Basis,
    at: int,
    n: int,
) -> Seq<Share>
    decreases n,
{
    if n <= 0 {
        Seq::empty()
    } else {
        let front = shares_below(nodes, ports, basis, at, n - 1);
        let demand = asked(nodes, ports, basis, n - 1);
        if is_below(nodes, n - 1, at) && demand > 0 {
            front.push((Share { path: nodes[n - 1].name, demand }))
        } else {
            front
        }
    }
}

/// How many of the first `n` rows are below `at`.
pub open spec fn count_below(nodes: Seq<RowFacts>, at: int, n: int) -> nat
    decreases n,
{
    if n <= 0 {
        0
    } else if is_below(nodes, n - 1, at) {
        count_below(nodes, at, n - 1) + 1
    } else {
        count_below(nodes, at, n - 1)
    }
}

/// What several shares come to.
pub open spec fn total_of(v: Seq<Share>) -> nat
    decreases v.len(),
{
    if v.len() == 0 {
        0
    } else {
        total_of(v.drop_last()) + v.last().demand
    }
}

/// A total as far as it can be held.
pub open spec fn held(n: nat) -> nat {
    if n > u128::MAX {
        u128::MAX as nat
    } else {
        n
    }
}

/// Shares stand by demand, the largest first, then by path.
pub open spec fn largest_first() -> spec_fn(Share, Share) -> bool {
    |a: Share, b: Share| a.demand > b.demand || (a.demand == b.demand && lex_le(a.path, b.path))
}

/// Whether a demand reaches the floor at a capacity.
pub open spec fn reaches_floor(demand: nat, capacity: nat) -> bool {
    demand * FLOOR_UNIT + capacity * FLOOR_TOLERANCE >= capacity * CHOKE_FLOOR
}

/// The first three, or all when there are fewer.
pub open spec fn first_three(v: Seq<Share>) -> Seq<Share> {
    if v.len() <= 3 {
        v
    } else {
        v.take(3)
    }
}

/// The choke point that row `at` is, if it is one. A root hub bounds its
/// subtree but is never a stage of its own.
pub open spec fn stage_at(
    nodes: Seq<RowFacts>,
    ports: Map<Seq<char>, PortFacts>,
    basis: Basis,
    at: int,
) -> Option<Stage> {
    let n = nodes.len() as int;
    let all = shares_below(nodes, ports, basis, at, n);
    let capacity = practical_centibits(hub_rate(nodes[at], basis, ceiling(nodes, basis, at)));
    let demand = held(total_of(all));
    match attachment(nodes[at].name) {
        Some((hub, number)) => if is_hub(nodes, ports, at) && capacity > 0 && reaches_floor(demand, capacity) {
            Some(
                (Stage {
                    bus: nodes[at].bus,
                    address: nodes[at].address,
                    path: nodes[at].name,
                    port: Some(port_text(hub, number)),
                    capacity,
                    demand,
                    devices: count_below(nodes, at, n),
                    top: first_three(sorted_by(all, largest_first())),
                }),
            )
        } else {
            None
        },
        None => None,
    }
}

/// The choke points among the first `n` rows.
pub open spec fn stages(
    nodes: Seq<RowFacts>,
    ports: Map<Seq<char>, PortFacts>,
    basis: Basis,
    n: int,
) -> Seq<Stage>
    decreases n,
{
    if n <= 0 {
        Seq::empty()
    } else {
        match stage_at(nodes, ports, basis, n - 1) {
            Some(s) => stages(nodes, ports, basis, n - 1).push(s),
            None => stages(nodes, ports, basis, n - 1),
        }
    }
}

/// What a capacity is divided by.
pub open spec fn divisor(capacity: nat) -> nat {
    if capacity == 0 {
        1
    } else {
        capacity
    }
}

/// Whether `a` is choked more than `b`.
pub open spec fn is_worse(a: Stage, b: Stage) -> bool {
    a.demand * divisor(b.capacity) > b.demand * divisor(a.capacity)
}

/// Choke points stand by ratio, the worst first, then by path.
pub open spec fn worst_first() -> spec_fn(Stage, Stage) -> bool {
    |a: Stage, b: Stage| is_worse(a, b) || (!is_worse(b, a) && lex_le(a.path, b.path))
}

/// Rows stand by name.
pub open spec fn by_name() -> spec_fn(RowFacts, RowFacts) -> bool {
    |a: RowFacts, b: RowFacts| lex_le(a.name, b.name)
}

/// Every choke point among the devices of some buses.
pub open spec fn choke_points(buses: Seq<UsbBus>, ports: Map<Seq<char>, PortFacts>, basis: Basis) -> Seq<Stage> {
    let nodes = sorted_by(rows_of(buses), by_name());
    sorted_by(stages(nodes, ports, basis, nodes.len() as int), worst_first())
}

/// A row, ranked by its name.
struct Named {
    row: Row,
}

proof fn lemma_lex_le_total(a: Seq<char>, b: Seq<char>)
    ensures
        lex_le(a, b) || lex_le(b, a),
{
    lemma_lex_total(a, b);
}

proof fn lemma_lex_le_transitive(a: Seq<char>, b: Seq<char>, c: Seq<char>)
    requires
        lex_le(a, b),
        lex_le(b, c),
    ensures
        lex_le(a, c),
{
    if a != b && b != c {
        lemma_lex_transitive(a, b, c);
    }
}

fn text_le(a: &str, b: &str) -> (r: bool)
    ensures
        r == lex_le(a@, b@),
{
    if str_eq(a, b) {
        return true;
    }
    let v = to_chars(a);
    let w = to_chars(b);
    chars_lt(&v, &w)
}

impl Ranked for Named {
    closed spec fn le(self, other: Self) -> bool {
        lex_le(self.row.name@, other.row.name@)
    }

    fn is_le(&self, other: &Self) -> (r: bool) {
        text_le(self.row.name.as_str(), other.row.name.as_str())
    }

    proof fn le_total(a: Self, b: Self) {
        lemma_lex_le_total(a.row.name@, b.row.name@);
    }

    proof fn le_transitive(a: Self, b: Self, c: Self) {
        lemma_lex_le_transitive(a.row.name@, b.row.name@, c.row.name@);
    }
}

impl Ranked for Contributor {
    open spec fn le(self, other: Self) -> bool {
        largest_first()(self@, other@)
    }

    fn is_le(&self, other: &Self) -> (r: bool) {
        self.demand > other.demand || (self.demand == other.demand && text_le(
            self.path.as_str(),
            other.path.as_str(),
        ))
    }

    proof fn le_total(a: Self, b: Self) {
        lemma_lex_le_total(a.path@, b.path@);
    }

    proof fn le_transitive(a: Self, b: Self, c: Self) {
        if a.demand == b.demand && b.demand == c.demand {
            lemma_lex_le_transitive(a.path@, b.path@, c.path@);
        }
    }
}

proof fn lemma_no_worse_is_transitive(a: Stage, b: Stage, c: Stage)
    requires
        !is_worse(b, a),
        !is_worse(c, b),
    ensures
        !is_worse(c, a),
        is_worse(a, b) || is_worse(b, c) ==> is_worse(a, c),
{
    let (p, q, r) = (divisor(a.capacity) as int, divisor(b.capacity) as int, divisor(c.capacity) as int);
    let (x, y, z) = (a.demand as int, b.demand as int, c.demand as int);
    assert(x * r >= z * p && (x * q > y * p || y * r > z * q ==> x * r > z * p)) by (nonlinear_arith)
        requires
            x * q >= y * p,
            y * r >= z * q,
            p > 0,
            q > 0,
            r > 0,
            x >= 0,
            y >= 0,
            z >= 0,
    {
        assert((x * q) * r >= (y * p) * r);
        assert((y * r) * p >= (z * q) * p);
        assert((x * r) * q == (x * q) * r);
        assert((y * p) * r == (y * r) * p);
        assert((z * q) * p == (z * p) * q);
        assert((x * r) * q >= (z * p) * q);
        if x * q > y * p {
            assert((x * q) * r > (y * p) * r);
        }
        if y * r > z * q {
            assert((y * r) * p > (z * q) * p);
        }
    }
}

proof fn lemma_worst_first_transitive(a: Stage, b: Stage, c: Stage)
    requires
        worst_first()(a, b),
        worst_first()(b, c),
    ensures
        worst_first()(a, c),
{
    lemma_no_worse_is_transitive(a, b, c);
    if !is_worse(a, b) && !is_worse(b, c) {
        lemma_no_worse_is_transitive(c, b, a);
        lemma_lex_le_transitive(a.path, b.path, c.path);
    }
}

impl Ranked for Chokepoint {
    open spec fn le(self, other: Self) -> bool {
        worst_first()(self@, other@)
    }

    fn is_le(&self, other: &Self) -> (r: bool) {
        let p: u128 = if self.capacity == 0 {
            1
        } else {
            self.capacity
        };
        let q: u128 = if other.capacity == 0 {
            1
        } else {
            other.capacity
        };
        ratio_lt(other.demand, q, self.demand, p) || (!ratio_lt(self.demand, p, other.demand, q) && text_le(
            self.path.as_str(),
            other.path.as_str(),
        ))
    }

    proof fn le_total(a: Self, b: Self) {
        lemma_lex_le_total(a.path@, b.path@);
    }

    proof fn le_transitive(a: Self, b: Self, c: Self) {
        lemma_worst_first_transitive(a@, b@, c@);
    }
}

spec fn named_facts(v: Seq<Named>) -> Seq<RowFacts> {
    v.map_values(|n: Named| n.row@)
}

/// A bound as a natural number.
pub open spec fn bound_of(b: Option<u64>) -> Option<nat> {
    match b {
        Some(n) => Some(n as nat),
        None => None,
    }
}

fn at_most(rate: u64, bound: Option<u64>) -> (r: u64)
    ensures
        r == bounded(rate as nat, bound_of(bound)),
{
    match bound {
        Some(b) => if b < rate {
            b
        } else {
            rate
        },
        None => rate,
    }
}

fn best(row: &Row) -> (r: u64)
    ensures
        r == best_rate(row@),
{
    match row.capability {
        Some(c) => if c.speed.bps > row.link.bps {
            c.speed.bps
        } else {
            row.link.bps
        },
        None => row.link.bps,
    }
}

fn capacity_rate(row: &Row, basis: Basis, bound: Option<u64>) -> (r: u64)
    ensures
        r == hub_rate(row@, basis, bound_of(bound)),
{
    match basis {
        Basis::Link => row.link.bps,
        Basis::Capability => if row.link.bps <= HIGH_SPEED {
            at_most(row.link.bps, bound)
        } else {
            at_most(best(row), bound)
        },
    }
}

fn leaf_rate(row: &Row, basis: Basis, bound: Option<u64>) -> (r: u64)
    ensures
        r == device_rate(row@, basis, bound_of(bound)),
{
    match basis {
        Basis::Link => row.link.bps,
        Basis::Capability => if row.link.bps == 0 {
            0
        } else {
            at_most(best(row), bound)
        },
    }
}

/// The rows by name, and the hub that each hangs on.
struct Tree<'a> {
    nodes: Vec<Named>,
    parents: Vec<Option<usize>>,
    ports: &'a PortIndex,
    basis: Basis,
}

/// An index as an integer.
spec fn place(p: Option<usize>) -> Option<int> {
    match p {
        Some(n) => Some(n as int),
        None => None,
    }
}

impl<'a> Tree<'a> {
    spec fn facts(self) -> Seq<RowFacts> {
        named_facts(self.nodes@)
    }

    spec fn wf(self) -> bool {
        &&& self.parents@.len() == self.nodes@.len()
        &&& forall|i: int|
            0 <= i < self.nodes@.len() ==> place(#[trigger] self.parents@[i]) == parent_of(self.facts(), i)
    }

    fn bound(&self, i: usize) -> (r: Option<u64>)
        requires
            self.wf(),
            i < self.nodes@.len(),
        ensures
            bound_of(r) == ceiling(self.facts(), self.basis, i as int),
        decreases depth(self.facts()[i as int].name),
    {
        proof {
            lemma_parent(self.facts(), i as int);
        }
        match self.parents[i] {
            None => None,
            Some(p) => {
                let above = self.bound(p);
                let rate = capacity_rate(&self.nodes[p].row, self.basis, above);
                match self.basis {
                    Basis::Capability => if rate > 0 {
                        Some(rate)
                    } else {
                        above
                    },
                    Basis::Link => above,
                }
            },
        }
    }

    fn below(&self, i: usize, at: usize) -> (r: bool)
        requires
            self.wf(),
            i < self.nodes@.len(),
        ensures
            r == is_below(self.facts(), i as int, at as int),
        decreases depth(self.facts()[i as int].name),
    {
        proof {
            lemma_parent(self.facts(), i as int);
        }
        match self.parents[i] {
            None => false,
            Some(p) => p == at || self.below(p, at),
        }
    }

    fn hub(&self, at: usize) -> (r: bool)
        requires
            self.wf(),
            at < self.nodes@.len(),
        ensures
            r == is_hub(self.facts(), self.ports@, at as int),
    {
        if self.ports.is_hub(self.nodes[at].row.name.as_str()) {
            return true;
        }
        let mut i: usize = 0;
        while i < self.nodes.len()
            invariant
                self.wf(),
                i <= self.nodes@.len(),
                forall|j: int| 0 <= j < i ==> #[trigger] parent_of(self.facts(), j) != Some(at as int),
            decreases self.nodes@.len() - i,
        {
            assert(place(self.parents@[i as int]) == parent_of(self.facts(), i as int));
            if let Some(p) = self.parents[i] {
                if p == at {
                    assert(parent_of(self.facts(), i as int) == Some(at as int));
                    return true;
                }
            }
            i = i + 1;
        }
        false
    }

    fn ask(&self, i: usize) -> (r: u128)
        requires
            self.wf(),
            i < self.nodes@.len(),
        ensures
            r == asked(self.facts(), self.ports@, self.basis, i as int),
    {
        if self.hub(i) {
            return 0;
        }
        let bound = self.bound(i);
        let rate = leaf_rate(&self.nodes[i].row, self.basis, bound);
        UsbSpeed::from_bps(rate).practical()
    }

    /// What is below a row: the demand, the number of devices and every
    /// contribution.
    fn walk(&self, at: usize) -> (r: (u128, usize, Vec<Contributor>))
        requires
            self.wf(),
        ensures
            ({
                let n = self.nodes@.len() as int;
                let all = shares_below(self.facts(), self.ports@, self.basis, at as int, n);
                &&& shares(r.2@) == all
                &&& r.0 == held(total_of(all))
                &&& r.1 == count_below(self.facts(), at as int, n)
            }),
    {
        let ghost facts = self.facts();
        let mut demand: u128 = 0;
        let mut devices: usize = 0;
        let mut contributors: Vec<Contributor> = Vec::new();
        let mut i: usize = 0;
        assert(shares(contributors@) =~= Seq::<Share>::empty());
        while i < self.nodes.len()
            invariant
                self.wf(),
                facts == self.facts(),
                i <= self.nodes@.len(),
                devices <= i,
                devices == count_below(facts, at as int, i as int),
                shares(contributors@) == shares_below(facts, self.ports@, self.basis, at as int, i as int),
                demand == held(total_of(shares(contributors@))),
            decreases self.nodes@.len() - i,
        {
            if self.below(i, at) {
                devices = devices + 1;
                let asks = self.ask(i);
                if asks > 0 {
                    let ghost before = shares(contributors@);
                    let c = Contributor { path: self.nodes[i].row.name.clone(), demand: asks };
                    let ghost share = c@;
                    contributors.push(c);
                    assert(shares(contributors@) =~= before.push(share));
                    assert(before.push(share).drop_last() =~= before);
                    demand = if demand > u128::MAX - asks {
                        u128::MAX
                    } else {
                        demand + asks
                    };
                }
            }
            i = i + 1;
        }
        (demand, devices, contributors)
    }

    /// The choke point that a row is, if it is one.
    fn stage(&self, at: usize) -> (r: Option<Chokepoint>)
        requires
            self.wf(),
            at < self.nodes@.len(),
        ensures
            match r {
                Some(c) => stage_at(self.facts(), self.ports@, self.basis, at as int) == Some(c@) && 0 < c.capacity
                    <= MAX_CAPACITY,
                None => stage_at(self.facts(), self.ports@, self.basis, at as int) is None,
            },
    {
        let row = &self.nodes[at].row;
        let (hub, number) = match port_of_device(row.name.as_str()) {
            None => {
                return None;
            },
            Some(p) => p,
        };
        if !self.hub(at) {
            return None;
        }
        let bound = self.bound(at);
        let capacity = UsbSpeed::from_bps(capacity_rate(row, self.basis, bound)).practical();
        if capacity == 0 {
            return None;
        }
        let (demand, devices, contributors) = self.walk(at);
        if !over_floor(demand, capacity) {
            return None;
        }
        proof {
            lemma_sorted_mapped(
                contributors@,
                rank::<Contributor>(),
                |c: Contributor| c@,
                largest_first(),
            );
        }
        let mut top = sort(contributors);
        let ghost ordered = shares(top@);
        if top.len() > 3 {
            top.truncate(3);
            assert(shares(top@) =~= ordered.take(3));
        }
        Some(
            Chokepoint {
                bus: row.bus,
                address: row.address,
                path: row.name.clone(),
                port: Some(port_name(hub.as_str(), number)),
                capacity,
                demand,
                devices,
                top,
            },
        )
    }
}

/// Whether a demand reaches the floor at a capacity.
fn over_floor(demand: u128, capacity: u128) -> (r: bool)
    requires
        capacity <= MAX_CAPACITY,
    ensures
        r == reaches_floor(demand as nat, capacity as nat),
{
    if demand >= 0x4_0000_0000_0000_0000_0000_0000 {
        return true;
    }
    demand * FLOOR_UNIT + capacity * FLOOR_TOLERANCE >= capacity * CHOKE_FLOOR
}

fn position(nodes: &Vec<Named>, name: &str) -> (r: Option<usize>)
    ensures
        place(r) == last_named(named_facts(nodes@), name@),
{
    let ghost facts = named_facts(nodes@);
    let mut i: usize = nodes.len();
    assert(facts.take(facts.len() as int) =~= facts);
    while i > 0
        invariant
            i <= nodes@.len(),
            facts == named_facts(nodes@),
            last_named(facts, name@) == last_named(facts.take(i as int), name@),
        decreases i,
    {
        assert(facts.take(i as int).last() == nodes@[i - 1].row@);
        if str_eq(nodes[i - 1].row.name.as_str(), name) {
            return Some(i - 1);
        }
        assert(facts.take(i as int).drop_last() =~= facts.take(i - 1));
        i = i - 1;
    }
    None
}

/// Every hub whose subtree asks at least the floor times its link's practical
/// capacity, worst first, ties by path. `ports` says which devices own port
/// objects, so a hub with nothing plugged into it is recognised as a hub
/// rather than counted as a device asking its link rate.
pub fn analyze(manager: &DeviceManager, ports: &PortIndex, basis: Basis) -> (r: Vec<Chokepoint>)
    ensures
        r@.map_values(|c: Chokepoint| c@) == choke_points(manager.buses@, ports@, basis),
        forall|i: int| 0 <= i < r@.len() ==> 0 < (#[trigger] r@[i]).capacity <= MAX_CAPACITY,
{
    let mut rows = collect_rows(&manager.buses);
    let ghost facts = row_facts(rows@);
    let mut named: Vec<Named> = Vec::new();
    assert(facts.skip(facts.len() as int) =~= named_facts(named@));
    while rows.len() > 0
        invariant
            rows@.len() <= facts.len(),
            row_facts(rows@) == facts.take(rows@.len() as int),
            named_facts(named@) == facts.skip(rows@.len() as int),
        decreases rows@.len(),
    {
        let ghost n = rows@.len() as int;
        let ghost before = rows@;
        let ghost tail = named_facts(named@);
        if let Some(row) = rows.pop() {
            assert(row@ == row_facts(before)[n - 1]);
            named.insert(0, Named { row });
            assert(named_facts(named@) =~= seq![facts[n - 1]] + tail);
            assert(facts.skip(n - 1) =~= seq![facts[n - 1]] + facts.skip(n));
            assert(row_facts(rows@) =~= facts.take(n - 1));
        }
    }
    assert(named_facts(named@) =~= facts);
    proof {
        lemma_sorted_mapped(named@, rank::<Named>(), |n: Named| n.row@, by_name());
    }
    let nodes = sort(named);
    let ghost sorted_facts = named_facts(nodes@);
    let mut parents: Vec<Option<usize>> = Vec::new();
    while parents.len() < nodes.len()
        invariant
            parents@.len() <= nodes@.len(),
            sorted_facts == named_facts(nodes@),
            forall|i: int| 0 <= i < parents@.len() ==> place(#[trigger] parents@[i]) == parent_of(sorted_facts, i),
        decreases nodes@.len() - parents@.len(),
    {
        let i = parents.len();
        assert(sorted_facts[i as int] == nodes@[i as int].row@);
        let parent = match port_of_device(nodes[i].row.name.as_str()) {
            Some((hub, _)) => position(&nodes, hub.as_str()),
            None => None,
        };
        parents.push(parent);
    }
    let tree = Tree { nodes, parents, ports, basis };
    let mut found: Vec<Chokepoint> = Vec::new();
    let mut i: usize = 0;
    assert(found@.map_values(|c: Chokepoint| c@) =~= Seq::<Stage>::empty());
    while i < tree.nodes.len()
        invariant
            tree.wf(),
            i <= tree.nodes@.len(),
            found@.map_values(|c: Chokepoint| c@) == stages(tree.facts(), tree.ports@, tree.basis, i as int),
            forall|j: int| 0 <= j < found@.len() ==> 0 < (#[trigger] found@[j]).capacity <= MAX_CAPACITY,
        decreases tree.nodes@.len() - i,
    {
        let ghost before = found@.map_values(|c: Chokepoint| c@);
        if let Some(c) = tree.stage(i) {
            let ghost stage = c@;
            found.push(c);
            assert(found@.map_values(|c: Chokepoint| c@) =~= before.push(stage));
        }
        i = i + 1;
    }
    proof {
        lemma_sorted_mapped(found@, rank::<Chokepoint>(), |c: Chokepoint| c@, worst_first());
        let ordered = sorted(found@);
        assert forall|i: int| 0 <= i < ordered.len() implies 0 < (#[trigger] ordered[i]).capacity <= MAX_CAPACITY by {
            lemma_sorted_is_there(found@, i);
        }
    }
    sort(found)
}

/// Toggling twice gives back the basis.
pub proof fn law_toggling_twice_changes_nothing(basis: Basis)
    ensures
        basis.other().other() == basis,
        basis.other() != basis,
{
}

/// What is below a hub is below every hub above it.
pub proof fn law_below_is_transitive(nodes: Seq<RowFacts>, i: int, middle: int, top: int)
    requires
        is_below(nodes, i, middle),
        is_below(nodes, middle, top),
    ensures
        is_below(nodes, i, top),
    decreases depth(nodes[i].name),
{
    lemma_parent(nodes, i);
    if let Some(p) = parent_of(nodes, i) {
        if p != middle {
            law_below_is_transitive(nodes, p, middle, top);
        }
    }
}

/// No row is below itself.
pub proof fn law_nothing_is_below_itself(nodes: Seq<RowFacts>, i: int)
    ensures
        !is_below(nodes, i, i),
{
    if is_below(nodes, i, i) {
        lemma_below_is_deeper(nodes, i, i);
    }
}

proof fn lemma_below_is_deeper(nodes: Seq<RowFacts>, i: int, at: int)
    requires
        is_below(nodes, i, at),
    ensures
        depth(nodes[at].name) < depth(nodes[i].name),
    decreases depth(nodes[i].name),
{
    lemma_parent(nodes, i);
    if let Some(p) = parent_of(nodes, i) {
        if p != at {
            lemma_below_is_deeper(nodes, p, at);
        }
    }
}

/// Among any rows, a hub has at least as many devices below it as a hub
/// further down has.
pub proof fn law_a_subtree_holds_its_subtrees(nodes: Seq<RowFacts>, inner: int, outer: int, n: int)
    requires
        is_below(nodes, inner, outer),
    ensures
        count_below(nodes, inner, n) <= count_below(nodes, outer, n),
    decreases n,
{
    if n > 0 {
        law_a_subtree_holds_its_subtrees(nodes, inner, outer, n - 1);
        if is_below(nodes, n - 1, inner) {
            law_below_is_transitive(nodes, n - 1, inner, outer);
        }
    }
}

/// At the capability basis a device that nothing bounds asks no less than at
/// the link basis: a stated capability is a floor, never a ceiling below the
/// rate the device has reached.
pub proof fn law_a_capability_is_never_a_ceiling(row: RowFacts)
    ensures
        device_rate(row, Basis::Capability, None) >= device_rate(row, Basis::Link, None),
        hub_rate(row, Basis::Capability, None) >= hub_rate(row, Basis::Link, None),
{
}

/// A hub asks nothing of the hubs above it.
pub proof fn law_a_hub_asks_nothing(
    nodes: Seq<RowFacts>,
    ports: Map<Seq<char>, PortFacts>,
    basis: Basis,
    i: int,
)
    requires
        is_hub(nodes, ports, i),
    ensures
        asked(nodes, ports, basis, i) == 0,
{
}

/// A choke point is a hub on a port, at or above the floor, with at most
/// three contributors.
pub proof fn law_a_stage_is_at_or_above_the_floor(
    nodes: Seq<RowFacts>,
    ports: Map<Seq<char>, PortFacts>,
    basis: Basis,
    at: int,
)
    ensures
        stage_at(nodes, ports, basis, at) matches Some(s) ==> {
            &&& reaches_floor(s.demand, s.capacity)
            &&& 0 < s.capacity
            &&& s.top.len() <= 3
            &&& s.port is Some
            &&& is_hub(nodes, ports, at)
        },
{
}

/// The worst choke point comes first, ties by path.
pub proof fn law_choke_points_are_worst_first(buses: Seq<UsbBus>, ports: Map<Seq<char>, PortFacts>, basis: Basis)
    ensures
        is_sorted(choke_points(buses, ports, basis), worst_first()),
{
    lemma_worst_first_is_an_order();
    let nodes = sorted_by(rows_of(buses), by_name());
    lemma_sorted(stages(nodes, ports, basis, nodes.len() as int), worst_first());
}

proof fn lemma_worst_first_is_an_order()
    ensures
        is_order(worst_first()),
{
    let le = worst_first();
    assert forall|a: Stage, b: Stage| #[trigger] le(a, b) || le(b, a) by {
        lemma_lex_le_total(a.path, b.path);
    }
    assert forall|a: Stage, b: Stage, c: Stage| #[trigger] le(a, b) && #[trigger] le(b, c) implies le(a, c) by {
        lemma_worst_first_transitive(a, b, c);
    }
}

} // verus!
