//! Slack, the paths behind it, and how critical the nets are.

use crate::ids::IdMap;
use crate::netlist::{CellId, CellPin, Design, NetId};
use crate::order::{lemma_orders_all, orders, stable_order};
use crate::timing::analyser::{class_in, facts_of, port_class_or_comb, Hop, PerDomain, PerPort, PortFacts};
use crate::timing::delay::{greater, held, held_sub, lesser, max_of, min_of, DelayT};
use crate::timing::domain::{ClockDomain, DomainRegistry};
use crate::timing::kinds::TimingPortClass;
use crate::timing::legacy::{domain_from, port_domain_from_data};
use crate::timing::path::{PathSegment, TimingEndpoint, TimingPath};
use vstd::prelude::*;

verus! {

/// The pin that is reached by going `i` steps back.
pub open spec fn steps_before(hops: Map<CellPin, Hop>, pin: CellPin, i: nat) -> CellPin
    decreases i,
{
    if i == 0 {
        pin
    } else {
        hops[steps_before(hops, pin, (i - 1) as nat)].from
    }
}

/// The pin that is reached by going `i` steps back was met before.
pub open spec fn met_before(hops: Map<CellPin, Hop>, pin: CellPin, i: nat) -> bool {
    exists|j: nat| j < i && #[trigger] steps_before(hops, pin, j) == steps_before(hops, pin, i)
}

/// The path back from a pin has `len` steps: it goes on from every pin before, none of which is
/// met twice, and ends at one without a step or one that was met.
pub open spec fn path_ends(hops: Map<CellPin, Hop>, pin: CellPin, len: nat) -> bool {
    &&& forall|i: nat|
        i < len ==> hops.contains_key(#[trigger] steps_before(hops, pin, i)) && !met_before(hops, pin, i)
    &&& !hops.contains_key(steps_before(hops, pin, len)) || met_before(hops, pin, len)
}

/// A path has one length.
pub proof fn path_length_is_one(hops: Map<CellPin, Hop>, pin: CellPin, a: nat, b: nat)
    requires
        path_ends(hops, pin, a),
        path_ends(hops, pin, b),
    ensures
        a == b,
{
    if a < b {
        assert(hops.contains_key(steps_before(hops, pin, a)) && !met_before(hops, pin, a));
    }
    if b < a {
        assert(hops.contains_key(steps_before(hops, pin, b)) && !met_before(hops, pin, b));
    }
}

/// The step into a pin, as a segment.
pub open spec fn segment_into(hops: Map<CellPin, Hop>, pin: CellPin) -> PathSegment {
    PathSegment {
        net: match hops[pin].net {
            Some(n) => n,
            None => NetId(u32::MAX),
        },
        cell: pin.cell,
        port: pin.port,
        delay: hops[pin].delay,
    }
}

/// The start of a path, as a segment: what it adds is the time at which the pin is reached.
pub open spec fn segment_at_start(times: Map<CellPin, DelayT>, pin: CellPin) -> PathSegment {
    PathSegment {
        net: NetId(u32::MAX),
        cell: pin.cell,
        port: pin.port,
        delay: if times.contains_key(pin) {
            times[pin]
        } else {
            0
        },
    }
}

/// The segments of a path with `len` steps, from its start to the pin; none for a pin that no
/// step leads to.
pub open spec fn segments_of(
    times: Map<CellPin, DelayT>,
    hops: Map<CellPin, Hop>,
    pin: CellPin,
    len: nat,
) -> Seq<PathSegment> {
    if len == 0 {
        Seq::empty()
    } else {
        Seq::new(
            len + 1,
            |k: int|
                if k == 0 {
                    segment_at_start(times, steps_before(hops, pin, len))
                } else {
                    segment_into(hops, steps_before(hops, pin, (len - k) as nat))
                },
        )
    }
}

/// The segments are those of the path to the pin.
pub open spec fn traces(
    times: Map<CellPin, DelayT>,
    hops: Map<CellPin, Hop>,
    pin: CellPin,
    segments: Seq<PathSegment>,
) -> bool {
    exists|len: nat| #[trigger] path_ends(hops, pin, len) && segments == segments_of(times, hops, pin, len)
}

/// The sum of the delays of the first `k` segments.
pub open spec fn delay_sum(segments: Seq<PathSegment>, k: int) -> int
    decreases k,
{
    if k <= 0 {
        0
    } else {
        delay_sum(segments, k - 1) + segments[k - 1].delay
    }
}

/// What the segments of a path add up to is the time at which its end is reached, where every
/// step adds its delay to the time of the pin before it.
pub proof fn path_adds_up(times: Map<CellPin, DelayT>, hops: Map<CellPin, Hop>, pin: CellPin, len: nat)
    requires
        len > 0,
        path_ends(hops, pin, len),
        forall|p: CellPin| #[trigger]
            hops.contains_key(p) ==> times.contains_key(p) && times.contains_key(hops[p].from) && times[p]
                == times[hops[p].from] + hops[p].delay,
    ensures
        delay_sum(segments_of(times, hops, pin, len), len as int + 1) == times[pin],
{
    lemma_adds_up(times, hops, pin, len, len);
}

proof fn lemma_adds_up(times: Map<CellPin, DelayT>, hops: Map<CellPin, Hop>, pin: CellPin, len: nat, k: nat)
    requires
        0 < len,
        k <= len,
        path_ends(hops, pin, len),
        forall|p: CellPin| #[trigger]
            hops.contains_key(p) ==> times.contains_key(p) && times.contains_key(hops[p].from) && times[p]
                == times[hops[p].from] + hops[p].delay,
    ensures
        delay_sum(segments_of(times, hops, pin, len), k as int + 1) == times[steps_before(
            hops,
            pin,
            (len - k) as nat,
        )],
    decreases k,
{
    let segments = segments_of(times, hops, pin, len);
    if k == 0 {
        let before = steps_before(hops, pin, (len - 1) as nat);
        assert(hops.contains_key(before));
        assert(steps_before(hops, pin, len) == hops[before].from);
        assert(delay_sum(segments, 0) == 0);
        assert(segments[0] == segment_at_start(times, steps_before(hops, pin, len)));
    } else {
        lemma_adds_up(times, hops, pin, len, (k - 1) as nat);
        let here = steps_before(hops, pin, (len - k) as nat);
        assert(hops.contains_key(here));
        assert(steps_before(hops, pin, (len - k + 1) as nat) == hops[here].from);
        assert(segments[k as int] == segment_into(hops, here));
    }
}

/// The segments from the pin back, without the start.
spec fn backwards(hops: Map<CellPin, Hop>, pin: CellPin, i: nat) -> Seq<PathSegment> {
    Seq::new(i, |k: int| segment_into(hops, steps_before(hops, pin, k as nat)))
}

/// Follows the steps back from a pin to where its path starts.
pub fn reconstruct_path(
    times: &IdMap<CellPin, DelayT>,
    hops: &IdMap<CellPin, Hop>,
    endpoint: CellPin,
) -> (r: Vec<PathSegment>)
    ensures
        traces(times@, hops@, endpoint, r@),
{
    let ghost h = hops@;
    let limit: usize = hops.len();
    let mut back: Vec<PathSegment> = Vec::new();
    let mut visited: IdMap<CellPin, bool> = IdMap::new();
    let mut current: CellPin = endpoint;
    let ghost mut len: nat = 0;
    loop
        invariant_except_break
            h == hops@,
            h.dom().finite(),
            limit == h.dom().len(),
            current == steps_before(h, endpoint, len),
            back@ == backwards(h, endpoint, len),
            forall|i: nat|
                i < len ==> h.contains_key(#[trigger] steps_before(h, endpoint, i)) && !met_before(h, endpoint, i),
            forall|p: CellPin| #[trigger]
                visited@.contains_key(p) <==> exists|j: nat| j < len && #[trigger] steps_before(h, endpoint, j) == p,
            visited@.dom().finite(),
            visited@.dom().len() == len,
            visited@.dom().subset_of(h.dom()),
            len <= limit,
        ensures
            current == steps_before(h, endpoint, len),
            back@ == backwards(h, endpoint, len),
            path_ends(h, endpoint, len),
        decreases limit - len,
    {
        let hop: Hop = match hops.get(current) {
            Some(hop) => *hop,
            None => {
                break;
            },
        };
        if visited.contains_key(current) {
            assert(met_before(h, endpoint, len));
            break;
        }
        assert(!met_before(h, endpoint, len));
        let ghost before = visited@;
        let _ = visited.insert(current, true);
        proof {
            assert(visited@.dom() =~= before.dom().insert(current));
            vstd::set_lib::lemma_len_subset(visited@.dom(), h.dom());
        }
        back.push(
            PathSegment {
                net: match hop.net {
                    Some(n) => n,
                    None => NetId::none(),
                },
                cell: current.cell,
                port: current.port,
                delay: hop.delay,
            },
        );
        proof {
            assert(back@ =~= backwards(h, endpoint, len + 1));
            assert forall|p: CellPin| #[trigger]
                visited@.contains_key(p) <==> exists|j: nat|
                    j < len + 1 && #[trigger] steps_before(h, endpoint, j) == p by {
                if before.contains_key(p) {
                    let j = choose|j: nat| j < len && #[trigger] steps_before(h, endpoint, j) == p;
                    assert(j < len + 1 && steps_before(h, endpoint, j) == p);
                }
                if p == current {
                    assert(steps_before(h, endpoint, len) == p);
                }
                if exists|j: nat| j < len + 1 && #[trigger] steps_before(h, endpoint, j) == p {
                    let j = choose|j: nat| j < len + 1 && #[trigger] steps_before(h, endpoint, j) == p;
                    if j < len {
                        assert(before.contains_key(p));
                    }
                }
            }
            len = len + 1;
        }
        current = hop.from;
    }
    let n: usize = back.len();
    let mut r: Vec<PathSegment> = Vec::new();
    if n > 0 {
        let start: DelayT = match times.get(current) {
            Some(t) => *t,
            None => 0,
        };
        r.push(PathSegment { net: NetId::none(), cell: current.cell, port: current.port, delay: start });
        for k in 0..n
            invariant
                n == len,
                back@ == backwards(h, endpoint, len),
                current == steps_before(h, endpoint, len),
                r@.len() == k + 1,
                r@ =~= segments_of(times@, h, endpoint, len).take(k + 1),
                len > 0,
        {
            r.push(back[n - 1 - k]);
            assert(r@ =~= segments_of(times@, h, endpoint, len).take(k + 2));
        }
    }
    proof {
        assert(r@ =~= segments_of(times@, h, endpoint, len));
    }
    r
}

/// The pin is a register input with an arrival and a required time.
pub open spec fn is_endpoint(
    ports: Map<CellPin, PortFacts>,
    arrived: Map<CellPin, DelayT>,
    due: Map<CellPin, DelayT>,
    pin: CellPin,
) -> bool {
    class_in(ports, pin) is RegisterInput && arrived.contains_key(pin) && due.contains_key(pin)
}

/// The endpoints among the first `j` ports of a cell.
pub open spec fn endpoints_of_cell(
    design: Design,
    ports: Map<CellPin, PortFacts>,
    arrived: Map<CellPin, DelayT>,
    due: Map<CellPin, DelayT>,
    id: CellId,
    j: int,
) -> Seq<CellPin>
    decreases j,
{
    if j <= 0 {
        Seq::empty()
    } else {
        let rest = endpoints_of_cell(design, ports, arrived, due, id, j - 1);
        let pin = CellPin { cell: id, port: design.cell_of(id).ports@[j - 1].name };
        if is_endpoint(ports, arrived, due, pin) {
            rest.push(pin)
        } else {
            rest
        }
    }
}

/// The endpoints of the first `i` cells, those of living cells only.
pub open spec fn endpoints_of(
    design: Design,
    ports: Map<CellPin, PortFacts>,
    arrived: Map<CellPin, DelayT>,
    due: Map<CellPin, DelayT>,
    i: int,
) -> Seq<CellPin>
    decreases i,
{
    if i <= 0 {
        Seq::empty()
    } else {
        let rest = endpoints_of(design, ports, arrived, due, i - 1);
        let cell = design.cells@[i - 1];
        if cell.alive {
            rest + endpoints_of_cell(
                design,
                ports,
                arrived,
                due,
                CellId((i - 1) as u32),
                cell.ports@.len() as int,
            )
        } else {
            rest
        }
    }
}

fn collect_endpoints(
    design: &Design,
    ports: &IdMap<CellPin, PerPort>,
    arrived: &IdMap<CellPin, DelayT>,
    due: &IdMap<CellPin, DelayT>,
) -> (r: Vec<CellPin>)
    requires
        design.wf(),
    ensures
        r@ == endpoints_of(*design, facts_of(ports@), arrived@, due@, design.cells@.len() as int),
        forall|i: int| 0 <= i < r@.len() ==> arrived@.contains_key(#[trigger] r@[i]) && due@.contains_key(r@[i]),
{
    let ghost facts = facts_of(ports@);
    let mut r: Vec<CellPin> = Vec::new();
    for i in 0..design.cells.len()
        invariant
            design.wf(),
            facts == facts_of(ports@),
            r@ == endpoints_of(*design, facts, arrived@, due@, i as int),
            forall|k: int|
                0 <= k < r@.len() ==> arrived@.contains_key(#[trigger] r@[k]) && due@.contains_key(r@[k]),
    {
        let cell = &design.cells[i];
        let id = CellId(i as u32);
        let ghost before = r@;
        if cell.alive {
            for j in 0..cell.ports.len()
                invariant
                    design.wf(),
                    i < design.cells@.len(),
                    id == CellId(i as u32),
                    *cell == design.cells@[i as int],
                    facts == facts_of(ports@),
                    r@ =~= before + endpoints_of_cell(*design, facts, arrived@, due@, id, j as int),
                    forall|k: int|
                        0 <= k < r@.len() ==> arrived@.contains_key(#[trigger] r@[k]) && due@.contains_key(
                            r@[k],
                        ),
            {
                let pin = CellPin { cell: id, port: cell.ports[j].name };
                if let TimingPortClass::RegisterInput = port_class_or_comb(ports, pin) {
                    if arrived.contains_key(pin) && due.contains_key(pin) {
                        r.push(pin);
                    }
                }
            }
        }
    }
    r
}

/// The slack of a pin with both times.
pub open spec fn slack_at(arrived: Map<CellPin, DelayT>, due: Map<CellPin, DelayT>, pin: CellPin) -> DelayT {
    held(due[pin] - arrived[pin])
}

/// The smallest of the first `k` slacks; the largest delay where there are none.
pub open spec fn least_of(slacks: Seq<DelayT>, k: int) -> DelayT
    decreases k,
{
    if k <= 0 {
        i32::MAX
    } else {
        lesser(least_of(slacks, k - 1), slacks[k - 1])
    }
}

/// The worst of the slacks; zero where none is below the largest delay.
pub open spec fn worst_of(slacks: Seq<DelayT>) -> DelayT {
    let least = least_of(slacks, slacks.len() as int);
    if least == i32::MAX {
        0
    } else {
        least
    }
}

/// No slack is smaller than the worst, which is one of them where one is below the largest delay.
pub proof fn worst_is_least(slacks: Seq<DelayT>, k: int)
    requires
        0 <= k <= slacks.len(),
    ensures
        forall|i: int| 0 <= i < k ==> least_of(slacks, k) <= #[trigger] slacks[i],
        least_of(slacks, k) == i32::MAX || exists|i: int| 0 <= i < k && #[trigger] slacks[i] == least_of(slacks, k),
    decreases k,
{
    if k > 0 {
        worst_is_least(slacks, k - 1);
        if least_of(slacks, k) != least_of(slacks, k - 1) {
            assert(slacks[k - 1] == least_of(slacks, k));
        }
    }
}

/// The slacks of a list of pins.
pub open spec fn slacks_of(arrived: Map<CellPin, DelayT>, due: Map<CellPin, DelayT>, pins: Seq<CellPin>) -> Seq<DelayT> {
    Seq::new(pins.len(), |i: int| slack_at(arrived, due, pins[i]))
}

/// Where a path starts: at the first of its segments, and at the endpoint itself without any.
pub open spec fn path_start(segments: Seq<PathSegment>, pin: CellPin) -> CellPin {
    if segments.len() > 0 {
        CellPin { cell: segments[0].cell, port: segments[0].port }
    } else {
        pin
    }
}

/// The path is the one to an endpoint.
pub open spec fn is_path_to(
    arrived: Map<CellPin, DelayT>,
    due: Map<CellPin, DelayT>,
    hops: Map<CellPin, Hop>,
    domains: Seq<ClockDomain>,
    per_domain: Seq<PerDomain>,
    pin: CellPin,
    path: TimingPath,
) -> bool {
    let start = path_start(path.segments@, pin);
    &&& traces(arrived, hops, pin, path.segments@)
    &&& path.from == TimingEndpoint {
        cell: start.cell,
        port: start.port,
        domain: domain_from(domains, per_domain, start, 1),
    }
    &&& path.to == TimingEndpoint {
        cell: pin.cell,
        port: pin.port,
        domain: domain_from(domains, per_domain, pin, 1),
    }
    &&& path.delay == arrived[pin]
    &&& path.budget == due[pin]
    &&& path.slack == slack_at(arrived, due, pin)
}

/// How many of `n` paths are kept.
pub open spec fn kept(limit: int, n: int) -> int {
    if limit < n {
        limit
    } else {
        n
    }
}

/// The paths are those to the endpoints with the smallest slack, at most `limit` of them, the
/// smallest first; paths with one slack stand in the order of their endpoints.
pub open spec fn paths_to(
    arrived: Map<CellPin, DelayT>,
    due: Map<CellPin, DelayT>,
    hops: Map<CellPin, Hop>,
    domains: Seq<ClockDomain>,
    per_domain: Seq<PerDomain>,
    pins: Seq<CellPin>,
    limit: int,
    order: Seq<usize>,
    paths: Seq<TimingPath>,
) -> bool {
    &&& orders(slack_keys(arrived, due, pins), 0, pins.len() as int, order)
    &&& paths.len() == kept(limit, pins.len() as int)
    &&& forall|k: int|
        0 <= k < paths.len() ==> is_path_to(
            arrived,
            due,
            hops,
            domains,
            per_domain,
            pins[order[k] as int],
            #[trigger] paths[k],
        )
}

/// The kept paths are at most as many as were asked for, and no endpoint whose path was left out has a
/// smaller slack than one whose path was kept.
pub proof fn kept_paths_are_the_worst(
    arrived: Map<CellPin, DelayT>,
    due: Map<CellPin, DelayT>,
    hops: Map<CellPin, Hop>,
    domains: Seq<ClockDomain>,
    per_domain: Seq<PerDomain>,
    pins: Seq<CellPin>,
    limit: int,
    order: Seq<usize>,
    paths: Seq<TimingPath>,
)
    requires
        0 <= limit,
        pins.len() <= usize::MAX,
        paths_to(arrived, due, hops, domains, per_domain, pins, limit, order, paths),
    ensures
        paths.len() <= limit,
        paths.len() == pins.len() || paths.len() == limit,
        forall|i: int, k: int|
            #![trigger pins[i], paths[k]]
            0 <= i < pins.len() && 0 <= k < paths.len() ==> paths[k].slack <= slack_at(arrived, due, pins[i]) || exists|
                j: int,
            | 0 <= j < k && #[trigger] order[j] == i,
        forall|k: int, l: int|
            0 <= k < l < paths.len() ==> (#[trigger] paths[k]).slack <= (#[trigger] paths[l]).slack,
{
    let keys = slack_keys(arrived, due, pins);
    lemma_orders_all(keys, pins.len() as int, order);
    assert forall|i: int, k: int|
        #![trigger pins[i], paths[k]]
        0 <= i < pins.len() && 0 <= k < paths.len() implies paths[k].slack <= slack_at(arrived, due, pins[i])
        || exists|j: int| 0 <= j < k && #[trigger] order[j] == i by {
        assert(order.contains(i as usize));
        let j = choose|j: int| 0 <= j < order.len() && order[j] == i as usize;
        assert(is_path_to(arrived, due, hops, domains, per_domain, pins[order[k] as int], paths[k]));
        if j >= k {
            assert(keys[order[k] as int] <= keys[order[j] as int]);
        } else {
            assert(order[j] == i);
        }
    }
    assert forall|k: int, l: int| 0 <= k < l < paths.len() implies (#[trigger] paths[k]).slack <= (
    #[trigger] paths[l]).slack by {
        assert(is_path_to(arrived, due, hops, domains, per_domain, pins[order[k] as int], paths[k]));
        assert(is_path_to(arrived, due, hops, domains, per_domain, pins[order[l] as int], paths[l]));
        assert(keys[order[k] as int] <= keys[order[l] as int]);
    }
}

/// The slacks by which paths are ordered.
pub open spec fn slack_keys(arrived: Map<CellPin, DelayT>, due: Map<CellPin, DelayT>, pins: Seq<CellPin>) -> Seq<i64> {
    Seq::new(pins.len(), |i: int| slack_at(arrived, due, pins[i]) as i64)
}

/// An endpoint with its domain and its slack.
#[derive(Clone, Copy, PartialEq, Eq, Hash, Debug, Structural)]
pub struct EndpointSlack {
    pub pin: CellPin,
    pub domain: ClockDomain,
    pub slack: DelayT,
}

/// The endpoints with their domains and slacks.
pub open spec fn slack_list(
    arrived: Map<CellPin, DelayT>,
    due: Map<CellPin, DelayT>,
    domains: Seq<ClockDomain>,
    per_domain: Seq<PerDomain>,
    pins: Seq<CellPin>,
) -> Seq<EndpointSlack> {
    Seq::new(
        pins.len(),
        |i: int|
            EndpointSlack {
                pin: pins[i],
                domain: domain_from(domains, per_domain, pins[i], 1),
                slack: slack_at(arrived, due, pins[i]),
            },
    )
}

/// The slacks of a design and the paths behind them.
pub struct SlackReport {
    pub worst_slack: DelayT,
    pub worst_setup_slack: DelayT,
    pub worst_hold_slack: DelayT,
    /// All endpoints.
    pub endpoints: Vec<EndpointSlack>,
    /// The paths to the endpoints with the smallest slack.
    pub paths: Vec<TimingPath>,
}

/// What the report says, by the times of the pins.
pub open spec fn reports_slack(
    design: Design,
    ports: Map<CellPin, PortFacts>,
    arrived: Map<CellPin, DelayT>,
    due: Map<CellPin, DelayT>,
    hops: Map<CellPin, Hop>,
    domains: Seq<ClockDomain>,
    per_domain: Seq<PerDomain>,
    limit: int,
    r: SlackReport,
) -> bool {
    let pins = endpoints_of(design, ports, arrived, due, design.cells@.len() as int);
    &&& r.worst_slack == worst_of(slacks_of(arrived, due, pins))
    &&& r.worst_setup_slack == r.worst_slack
    &&& r.worst_hold_slack == 0
    &&& r.endpoints@ == slack_list(arrived, due, domains, per_domain, pins)
    &&& exists|order: Seq<usize>| #[trigger]
        paths_to(arrived, due, hops, domains, per_domain, pins, limit, order, r.paths@)
}

fn path_to(
    arrived: &IdMap<CellPin, DelayT>,
    due: &IdMap<CellPin, DelayT>,
    hops: &IdMap<CellPin, Hop>,
    registry: &DomainRegistry,
    per_domain: &Vec<PerDomain>,
    pin: CellPin,
) -> (path: TimingPath)
    requires
        registry.wf(),
        arrived@.contains_key(pin),
        due@.contains_key(pin),
    ensures
        is_path_to(arrived@, due@, hops@, registry.domains@, per_domain@, pin, path),
{
    let segments = reconstruct_path(arrived, hops, pin);
    let domain = port_domain_from_data(registry, per_domain, pin);
    let start: CellPin = if segments.len() > 0 {
        CellPin { cell: segments[0].cell, port: segments[0].port }
    } else {
        pin
    };
    let from = TimingEndpoint {
        cell: start.cell,
        port: start.port,
        domain: port_domain_from_data(registry, per_domain, start),
    };
    let to = TimingEndpoint { cell: pin.cell, port: pin.port, domain };
    let delay: DelayT = match arrived.get(pin) {
        Some(t) => *t,
        None => 0,
    };
    let budget: DelayT = match due.get(pin) {
        Some(t) => *t,
        None => 0,
    };
    TimingPath { from, to, delay, budget, slack: held_sub(budget, delay), segments }
}

/// Computes the slack at every register input, the worst of them, and the paths to the worst, at
/// most `limit` of them, worst first.
pub fn compute_slack_and_paths(
    design: &Design,
    ports: &IdMap<CellPin, PerPort>,
    arrived: &IdMap<CellPin, DelayT>,
    due: &IdMap<CellPin, DelayT>,
    hops: &IdMap<CellPin, Hop>,
    registry: &DomainRegistry,
    per_domain: &Vec<PerDomain>,
    limit: usize,
) -> (r: SlackReport)
    requires
        design.wf(),
        registry.wf(),
    ensures
        reports_slack(
            *design,
            facts_of(ports@),
            arrived@,
            due@,
            hops@,
            registry.domains@,
            per_domain@,
            limit as int,
            r,
        ),
{
    let pins = collect_endpoints(design, ports, arrived, due);
    let ghost slacks = slacks_of(arrived@, due@, pins@);
    let ghost list = slack_list(arrived@, due@, registry.domains@, per_domain@, pins@);
    let mut keys: Vec<i64> = Vec::new();
    let mut endpoints: Vec<EndpointSlack> = Vec::new();
    let mut worst: DelayT = i32::MAX;
    for i in 0..pins.len()
        invariant
            registry.wf(),
            list == slack_list(arrived@, due@, registry.domains@, per_domain@, pins@),
            endpoints@ =~= list.take(i as int),
            slacks == slacks_of(arrived@, due@, pins@),
            forall|k: int|
                0 <= k < pins@.len() ==> arrived@.contains_key(#[trigger] pins@[k]) && due@.contains_key(pins@[k]),
            keys@ =~= slack_keys(arrived@, due@, pins@).take(i as int),
            worst == least_of(slacks, i as int),
    {
        let pin: CellPin = pins[i];
        let a: DelayT = match arrived.get(pin) {
            Some(t) => *t,
            None => 0,
        };
        let d: DelayT = match due.get(pin) {
            Some(t) => *t,
            None => 0,
        };
        let slack: DelayT = held_sub(d, a);
        assert(slack == slacks[i as int]);
        worst = min_of(worst, slack);
        keys.push(slack as i64);
        endpoints.push(EndpointSlack { pin, domain: port_domain_from_data(registry, per_domain, pin), slack });
        assert(endpoints@[i as int] == list[i as int]);
    }
    assert(worst == least_of(slacks, slacks.len() as int));
    if worst == i32::MAX {
        worst = 0;
    }
    assert(worst == worst_of(slacks));
    assert(keys@ =~= slack_keys(arrived@, due@, pins@));
    assert(endpoints@ =~= list);
    let order = stable_order(&keys);
    let count: usize = if limit < order.len() {
        limit
    } else {
        order.len()
    };
    let mut paths: Vec<TimingPath> = Vec::new();
    for k in 0..count
        invariant
            count <= order@.len(),
            registry.wf(),
            order@.len() == pins@.len(),
            orders(keys@, 0, pins@.len() as int, order@),
            forall|i: int|
                0 <= i < pins@.len() ==> arrived@.contains_key(#[trigger] pins@[i]) && due@.contains_key(pins@[i]),
            paths@.len() == k,
            forall|i: int|
                0 <= i < k ==> is_path_to(
                    arrived@,
                    due@,
                    hops@,
                    registry.domains@,
                    per_domain@,
                    pins@[order@[i] as int],
                    #[trigger] paths@[i],
                ),
    {
        assert(order@[k as int] < pins@.len());
        let pin: CellPin = pins[order[k]];
        paths.push(path_to(arrived, due, hops, registry, per_domain, pin));
    }
    let r = SlackReport { worst_slack: worst, worst_setup_slack: worst, worst_hold_slack: 0, endpoints, paths };
    proof {
        assert(paths_to(arrived@, due@, hops@, registry.domains@, per_domain@, pins@, limit as int, order@, r.paths@));
    }
    r
}

/// The slack of a pin; a time that is missing counts as zero.
pub open spec fn slack_or_zero(arrived: Map<CellPin, DelayT>, due: Map<CellPin, DelayT>, pin: CellPin) -> DelayT {
    let a = if arrived.contains_key(pin) {
        arrived[pin]
    } else {
        0
    };
    let d = if due.contains_key(pin) {
        due[pin]
    } else {
        0
    };
    held(d - a)
}

/// The slack of a pin; a time that is missing counts as zero.
pub fn pin_slack(arrived: &IdMap<CellPin, DelayT>, due: &IdMap<CellPin, DelayT>, pin: CellPin) -> (r: DelayT)
    ensures
        r == slack_or_zero(arrived@, due@, pin),
{
    let a: DelayT = match arrived.get(pin) {
        Some(t) => *t,
        None => 0,
    };
    let d: DelayT = match due.get(pin) {
        Some(t) => *t,
        None => 0,
    };
    held_sub(d, a)
}

/// The smallest and the largest of some slacks.
#[derive(Clone, Copy, PartialEq, Eq, Hash, Debug, Structural)]
pub struct SlackRange {
    pub least: DelayT,
    pub greatest: DelayT,
}

/// A range with one slack more.
pub open spec fn widened(range: Option<SlackRange>, slack: DelayT) -> Option<SlackRange> {
    match range {
        Some(r) => Some(SlackRange { least: lesser(r.least, slack), greatest: greater(r.greatest, slack) }),
        None => Some(SlackRange { least: slack, greatest: slack }),
    }
}

/// The range of the slacks of the first `k` users; users without a cell are passed over.
pub open spec fn users_range(
    arrived: Map<CellPin, DelayT>,
    due: Map<CellPin, DelayT>,
    users: Seq<CellPin>,
    k: int,
) -> Option<SlackRange>
    decreases k,
{
    if k <= 0 {
        None
    } else {
        let rest = users_range(arrived, due, users, k - 1);
        if users[k - 1].connected() {
            widened(rest, slack_or_zero(arrived, due, users[k - 1]))
        } else {
            rest
        }
    }
}

/// Two ranges as one.
pub open spec fn joined(a: Option<SlackRange>, b: Option<SlackRange>) -> Option<SlackRange> {
    match (a, b) {
        (Some(x), Some(y)) => Some(
            SlackRange { least: lesser(x.least, y.least), greatest: greater(x.greatest, y.greatest) },
        ),
        (Some(x), None) => Some(x),
        (None, y) => y,
    }
}

/// The range of the slacks at the users of a net; none for a net that is not living.
pub open spec fn net_range(
    design: Design,
    arrived: Map<CellPin, DelayT>,
    due: Map<CellPin, DelayT>,
    n: int,
) -> Option<SlackRange> {
    let net = design.nets@[n];
    if net.alive {
        users_range(arrived, due, net.users@, net.users@.len() as int)
    } else {
        None
    }
}

/// The range of the slacks at the users of the first `n` nets.
pub open spec fn nets_range(
    design: Design,
    arrived: Map<CellPin, DelayT>,
    due: Map<CellPin, DelayT>,
    n: int,
) -> Option<SlackRange>
    decreases n,
{
    if n <= 0 {
        None
    } else {
        joined(nets_range(design, arrived, due, n - 1), net_range(design, arrived, due, n - 1))
    }
}

/// What tells how critical the nets are: the range of all slacks, and the smallest slack of each
/// net that has a user. A net is the more critical, the smaller its slack is within the range.
pub struct NetSlacks {
    pub range: Option<SlackRange>,
    pub least: IdMap<NetId, DelayT>,
}

/// The smallest slack of each living net that has a user.
pub open spec fn least_slacks(
    design: Design,
    arrived: Map<CellPin, DelayT>,
    due: Map<CellPin, DelayT>,
) -> Map<NetId, DelayT> {
    Map::new(
        |n: NetId| design.valid_net(n) && net_range(design, arrived, due, n.0 as int) is Some,
        |n: NetId| net_range(design, arrived, due, n.0 as int)->0.least,
    )
}

/// Computes the range of the slacks at the users of the nets, and the smallest slack of each net.
pub fn compute_net_slacks(
    design: &Design,
    arrived: &IdMap<CellPin, DelayT>,
    due: &IdMap<CellPin, DelayT>,
) -> (r: NetSlacks)
    requires
        design.wf(),
    ensures
        r.range == nets_range(*design, arrived@, due@, design.nets@.len() as int),
        r.least@ == least_slacks(*design, arrived@, due@),
{
    let ghost want = least_slacks(*design, arrived@, due@);
    let mut range: Option<SlackRange> = None;
    let mut least: IdMap<NetId, DelayT> = IdMap::new();
    for i in 0..design.nets.len()
        invariant
            design.wf(),
            want == least_slacks(*design, arrived@, due@),
            range == nets_range(*design, arrived@, due@, i as int),
            forall|n: NetId| #[trigger] least@.contains_key(n) <==> want.contains_key(n) && n.0 < i,
            forall|n: NetId| #[trigger] least@.contains_key(n) ==> least@[n] == want[n],
    {
        let net = &design.nets[i];
        let id = NetId(i as u32);
        let mut own: Option<SlackRange> = None;
        if net.alive {
            for k in 0..net.users.len()
                invariant
                    own == users_range(arrived@, due@, net.users@, k as int),
            {
                let user: CellPin = net.users[k];
                if user.is_valid() {
                    let s: DelayT = pin_slack(arrived, due, user);
                    own = match own {
                        Some(r) => Some(SlackRange { least: min_of(r.least, s), greatest: max_of(r.greatest, s) }),
                        None => Some(SlackRange { least: s, greatest: s }),
                    };
                }
            }
        }
        assert(own == net_range(*design, arrived@, due@, i as int));
        let ghost before = least@;
        if let Some(r) = own {
            let _ = least.insert(id, r.least);
            range = match range {
                Some(x) => Some(
                    SlackRange { least: min_of(x.least, r.least), greatest: max_of(x.greatest, r.greatest) },
                ),
                None => Some(r),
            };
        }
        proof {
            assert forall|n: NetId| #[trigger] least@.contains_key(n) <==> want.contains_key(n) && n.0 < i + 1 by {
                assert(n.0 == i <==> n == id);
                assert(before.contains_key(n) <==> want.contains_key(n) && n.0 < i);
            }
        }
    }
    assert(least@ =~= want);
    NetSlacks { range, least }
}

} // verus!
