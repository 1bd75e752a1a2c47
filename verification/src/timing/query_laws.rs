//! What the queries of an analysis and the sums behind them mean.

use crate::netlist::{CellId, CellPin, Design, NetId};
use crate::router::net_laws::lemma_picked;
use crate::timing::analyser::{lowered, raised, PortFacts};
use crate::timing::delay::{half_toward_zero, held, sat_sum, DelayQuad, DelayT};
use crate::timing::domain_laws::places;
use crate::timing::levels::{edge_total, open_edges, times};
use crate::timing::path::{PathSegment, TimingPath};
use crate::timing::queries::{effective, positions_through};
use crate::timing::related::{drivers_of, net_named, net_names, trace_ends, traced, traced_inputs, upstream_at, Trace};
use crate::timing::slack::{delay_sum, slack_or_zero};
use crate::timing::sort::living;
use crate::types::id_string::IdString;
use vstd::prelude::*;

verus! {

/// A number is held at the end of the range of delays that it is beyond, and else stays.
pub proof fn delays_are_held_in_range(n: int, a: int, b: int)
    ensures
        -0x8000_0000 <= n <= 0x7fff_ffff ==> held(n) == n,
        n > 0x7fff_ffff ==> held(n) == 0x7fff_ffff,
        n < -0x8000_0000 ==> held(n) == -0x8000_0000,
        a <= b ==> held(a) <= held(b),
        a + b <= 0x7fff_ffff ==> sat_sum(a, b) == a + b,
        a + b > 0x7fff_ffff ==> sat_sum(a, b) == 0x7fff_ffff,
{
}

/// Half of a number is rounded toward zero.
pub proof fn halves_are_rounded_toward_zero(n: int)
    ensures
        n >= 0 ==> 2 * half_toward_zero(n) <= n <= 2 * half_toward_zero(n) + 1,
        half_toward_zero(-n) == -half_toward_zero(n),
{
}

/// The least and the greatest of four delays bound all four, and each is one of them.
pub proof fn quads_lie_between_their_ends(q: DelayQuad)
    ensures
        q.least() <= q.rise.min_delay <= q.greatest(),
        q.least() <= q.rise.max_delay <= q.greatest(),
        q.least() <= q.fall.min_delay <= q.greatest(),
        q.least() <= q.fall.max_delay <= q.greatest(),
        q.least() == q.rise.min_delay || q.least() == q.rise.max_delay || q.least() == q.fall.min_delay || q.least()
            == q.fall.max_delay,
        q.greatest() == q.rise.min_delay || q.greatest() == q.rise.max_delay || q.greatest() == q.fall.min_delay
            || q.greatest() == q.fall.max_delay,
{
}

/// The later of two times stays at a pin where signals meet, the earlier where they are due; other pins
/// keep theirs.
pub proof fn meeting_times_keep_the_worst(known: Map<CellPin, DelayT>, p: CellPin, t: DelayT, q: CellPin)
    ensures
        raised(known, p, t).contains_key(p) && raised(known, p, t)[p] >= t,
        known.contains_key(p) ==> raised(known, p, t)[p] >= known[p] && (raised(known, p, t)[p] == t || raised(
            known,
            p,
            t,
        )[p] == known[p]),
        !known.contains_key(p) ==> raised(known, p, t)[p] == t && lowered(known, p, t)[p] == t,
        lowered(known, p, t).contains_key(p) && lowered(known, p, t)[p] <= t,
        known.contains_key(p) ==> lowered(known, p, t)[p] <= known[p] && (lowered(known, p, t)[p] == t || lowered(
            known,
            p,
            t,
        )[p] == known[p]),
        q != p && known.contains_key(q) ==> raised(known, p, t)[q] == known[q] && lowered(known, p, t)[q] == known[q],
        q != p ==> (raised(known, p, t).contains_key(q) <==> known.contains_key(q)) && (lowered(
            known,
            p,
            t,
        ).contains_key(q) <==> known.contains_key(q)),
{
}

/// Holds of the positions of paths with a segment on the net.
pub open spec fn uses_net(paths: Seq<TimingPath>, net: NetId) -> spec_fn(int) -> bool {
    |i: int| exists|j: int| 0 <= j < paths[i].segments@.len() && (#[trigger] paths[i].segments@[j]).net == net
}

/// The paths through a net are all those with a segment on it, in order.
pub proof fn every_path_through_a_net_is_found(paths: Seq<TimingPath>, net: NetId, n: int)
    requires
        0 <= n <= paths.len() <= usize::MAX,
    ensures
        ({
            let own = places(paths.len()).take(n).filter(uses_net(paths, net));
            &&& positions_through(paths, net, n).len() == own.len()
            &&& forall|i: int| 0 <= i < own.len() ==> #[trigger] positions_through(paths, net, n)[i] == own[i]
        }),
    decreases n,
{
    lemma_picked(places(paths.len()), n, uses_net(paths, net));
    if n > 0 {
        every_path_through_a_net_is_found(paths, net, n - 1);
    }
}

/// What is left of a period is the period where nothing is late, less what is late, and never below
/// zero; without a clock nothing is left.
pub proof fn late_paths_shorten_the_period(period: DelayT, worst: DelayT)
    ensures
        effective(true, period, worst) == 0,
        period <= 0 ==> effective(false, period, worst) == 0,
        period > 0 && worst >= 0 ==> effective(false, period, worst) == period,
        period > 0 && worst < 0 && period > -worst ==> effective(false, period, worst) == period + worst,
        period > 0 && worst < 0 && period <= -worst ==> effective(false, period, worst) == 0,
{
}

/// The slack of a pin is what is left from its arrival to when it is due, with zero for a missing time.
pub proof fn slack_is_what_is_left(arrived: Map<CellPin, DelayT>, due: Map<CellPin, DelayT>, pin: CellPin)
    ensures
        ({
            let a = if arrived.contains_key(pin) {
                arrived[pin] as int
            } else {
                0
            };
            let d = if due.contains_key(pin) {
                due[pin] as int
            } else {
                0
            };
            slack_or_zero(arrived, due, pin) == (if d - a > 0x7fff_ffff {
                0x7fff_ffff
            } else if d - a < -0x8000_0000 {
                -0x8000_0000
            } else {
                d - a
            })
        }),
{
}

/// The delay of a segment, added to a sum.
pub open spec fn plus_delay() -> spec_fn(int, PathSegment) -> int {
    |sum: int, s: PathSegment| sum + s.delay
}

/// The delay along a path is the sum of the delays of all its segments.
pub proof fn every_segment_adds_its_delay(segments: Seq<PathSegment>, k: int)
    requires
        0 <= k <= segments.len(),
    ensures
        delay_sum(segments, k) == segments.take(k).fold_left(0, plus_delay()),
    decreases k,
{
    if k > 0 {
        every_segment_adds_its_delay(segments, k - 1);
        assert(segments.take(k).drop_last() =~= segments.take(k - 1));
    }
}

/// Holds of the nodes whose cells live.
pub open spec fn is_alive(design: Design) -> spec_fn(usize) -> bool {
    |i: usize| design.cells@[i as int].alive
}

/// The cells of an order are all its living ones, in that order.
pub proof fn every_living_cell_is_listed(design: Design, order: Seq<usize>, k: int)
    requires
        0 <= k <= order.len(),
    ensures
        ({
            let own = order.take(k).filter(is_alive(design));
            &&& living(design, order, k).len() == own.len()
            &&& forall|i: int| 0 <= i < own.len() ==> #[trigger] living(design, order, k)[i] == CellId(own[i] as u32)
        }),
    decreases k,
{
    lemma_picked(order, k, is_alive(design));
    if k > 0 {
        every_living_cell_is_listed(design, order, k - 1);
    }
}

/// Holds of one number.
pub open spec fn is_number(v: usize) -> spec_fn(usize) -> bool {
    |x: usize| x == v
}

proof fn lemma_occurrences(s: Seq<usize>, v: usize)
    ensures
        times(s, v) == s.filter(is_number(v)).len(),
    decreases s.len(),
{
    reveal(Seq::filter);
    if s.len() > 0 {
        lemma_occurrences(s.drop_last(), v);
    }
}

/// The edges of a node into another, added to a sum where the node is not done.
pub open spec fn plus_edges(edges: Seq<Seq<usize>>, done: Set<usize>, v: usize) -> spec_fn(int, int) -> int {
    |sum: int, u: int|
        if done.contains(u as usize) {
            sum
        } else {
            sum + edges[u].filter(is_number(v)).len()
        }
}

/// The open edges into a node are all those from nodes that are not done.
pub proof fn open_edges_come_from_open_nodes(edges: Seq<Seq<usize>>, done: Set<usize>, n: nat, v: usize)
    requires
        n <= edges.len(),
    ensures
        open_edges(edges, done, n as int, v) == places(n).fold_left(0, plus_edges(edges, done, v)),
    decreases n,
{
    if n > 0 {
        open_edges_come_from_open_nodes(edges, done, (n - 1) as nat, v);
        assert(places(n).drop_last() =~= places((n - 1) as nat));
        lemma_occurrences(edges[n - 1], v);
    }
}

/// The edges of a node, added to a sum.
pub open spec fn plus_all_edges(edges: Seq<Seq<usize>>) -> spec_fn(int, int) -> int {
    |sum: int, u: int| sum + edges[u].len()
}

/// The number of edges is that of all nodes together.
pub proof fn edges_add_up(edges: Seq<Seq<usize>>, n: nat)
    requires
        n <= edges.len(),
    ensures
        edge_total(edges, n as int) == places(n).fold_left(0, plus_all_edges(edges)),
    decreases n,
{
    if n > 0 {
        edges_add_up(edges, (n - 1) as nat);
        assert(places(n).drop_last() =~= places((n - 1) as nat));
    }
}

/// The first net with a name is found, and none where no net has it.
pub proof fn nets_are_found_by_name(design: Design, name: IdString, i: int)
    requires
        0 <= i <= design.nets@.len() <= u32::MAX,
    ensures
        forall|k: int|
            i <= k < design.nets@.len() && (#[trigger] design.nets@[k]).name == name && (forall|j: int|
                i <= j < k ==> (#[trigger] design.nets@[j]).name != name) ==> net_named(design, name, i) == Some(
                NetId(k as u32),
            ),
        (forall|k: int| i <= k < design.nets@.len() ==> (#[trigger] design.nets@[k]).name != name) ==> net_named(
            design,
            name,
            i,
        ) is None,
    decreases design.nets@.len() - i,
{
    if i < design.nets@.len() {
        nets_are_found_by_name(design, name, i + 1);
    }
}

/// A net without a driver comes from nowhere.
pub proof fn undriven_nets_come_from_nowhere(design: Design, ports: Map<CellPin, PortFacts>, n: NetId)
    requires
        design.nets@[n.0 as int].driver.cell.0 == u32::MAX,
    ensures
        drivers_of(design, ports, n) == Map::<IdString, DelayT>::empty(),
{
}

proof fn lemma_names(design: Design, n: NetId)
    requires
        n.0 < design.nets@.len(),
    ensures
        net_names(design).finite(),
        net_names(design).contains(design.nets@[n.0 as int].name),
        net_names(design).len() > 0,
{
    let list = design.nets@.map_values(|x: crate::netlist::Net| x.name);
    vstd::seq_lib::seq_to_set_is_finite(list);
    assert(list[n.0 as int] == design.nets@[n.0 as int].name);
    assert(list.to_set().contains(list[n.0 as int]));
    if net_names(design).len() == 0 {
        assert(net_names(design) =~= Set::<IdString>::empty());
    }
}

/// A net whose driver leads no further back, a pad or a register say, comes from itself without delay.
pub proof fn sources_come_from_themselves(design: Design, ports: Map<CellPin, PortFacts>, n: NetId)
    requires
        n.0 < design.nets@.len(),
        design.nets@[n.0 as int].driver.cell.0 != u32::MAX,
        trace_ends(design, ports, design.nets@[n.0 as int].driver),
    ensures
        drivers_of(design, ports, n) =~= Map::<IdString, DelayT>::empty().insert(design.nets@[n.0 as int].name, 0),
{
    lemma_names(design, n);
}

/// Port `j` of the driving cell leads back to a net with the name, with the delay.
pub open spec fn comes_in(
    design: Design,
    ports: Map<CellPin, PortFacts>,
    driver: CellPin,
    j: int,
    name: IdString,
    delay: DelayT,
) -> bool {
    let port = design.cells@[driver.cell.0 as int].ports@[j];
    &&& 0 <= j < design.cells@[driver.cell.0 as int].ports@.len()
    &&& upstream_at(ports, driver, port) is Some
    &&& design.nets@[(upstream_at(ports, driver, port)->0.net).0 as int].name == name
    &&& upstream_at(ports, driver, port)->0.delay == delay
}

/// Every input that leads back comes from a driven net whose driver leads no further back, with a name
/// other than the given one.
pub open spec fn sources_before(
    design: Design,
    ports: Map<CellPin, PortFacts>,
    driver: CellPin,
    name: IdString,
) -> bool {
    forall|j: int|
        0 <= j < design.cells@[driver.cell.0 as int].ports@.len() && upstream_at(
            ports,
            driver,
            #[trigger] design.cells@[driver.cell.0 as int].ports@[j],
        ) is Some ==> {
            let up = upstream_at(ports, driver, design.cells@[driver.cell.0 as int].ports@[j])->0;
            &&& up.net.0 < design.nets@.len()
            &&& design.nets@[up.net.0 as int].driver.cell.0 != u32::MAX
            &&& design.nets@[up.net.0 as int].name != name
            &&& trace_ends(design, ports, design.nets@[up.net.0 as int].driver)
        }
}

proof fn lemma_behind_one_cell(
    design: Design,
    ports: Map<CellPin, PortFacts>,
    driver: CellPin,
    st: Trace,
    name: IdString,
    k: nat,
    depth: nat,
)
    requires
        sources_before(design, ports, driver, name),
        k <= design.cells@[driver.cell.0 as int].ports@.len(),
        depth > 0,
        st.drivers == Map::<IdString, DelayT>::empty(),
    ensures
        ({
            let found = traced_inputs(design, ports, driver, st, 0, k, depth).drivers;
            &&& forall|x: IdString| #[trigger]
                found.contains_key(x) <==> exists|j: int, d: DelayT|
                    j < k && #[trigger] comes_in(design, ports, driver, j, x, d)
            &&& forall|x: IdString, j: int, d: DelayT|
                j < k && #[trigger] comes_in(design, ports, driver, j, x, d) && (forall|i: int, e: DelayT|
                    j < i < k ==> !(#[trigger] comes_in(design, ports, driver, i, x, e))) ==> found[x] == d
        }),
    decreases k,
{
    if k > 0 {
        lemma_behind_one_cell(design, ports, driver, st, name, (k - 1) as nat, depth);
        let before = traced_inputs(design, ports, driver, st, 0, (k - 1) as nat, depth);
        let found = traced_inputs(design, ports, driver, st, 0, k, depth).drivers;
        let port = design.cells@[driver.cell.0 as int].ports@[k - 1];
        let last = k - 1;
        match upstream_at(ports, driver, port) {
            Some(up) => {
                let own = design.nets@[up.net.0 as int].name;
                assert(comes_in(design, ports, driver, last, own, up.delay));
                let after = traced(design, ports, up.net, before, held(0 + up.delay), depth);
                assert(upstream_at(ports, driver, design.cell_of(driver.cell).ports@[k - 1]) == Some(up));
                assert(after.drivers == before.drivers.insert(own, up.delay));
                assert(found == after.drivers);
                assert forall|x: IdString| #[trigger] found.contains_key(x) <==> exists|j: int, d: DelayT|
                    j < k && #[trigger] comes_in(design, ports, driver, j, x, d) by {
                    assert(before.drivers.contains_key(x) <==> exists|j: int, d: DelayT|
                        j < k - 1 && #[trigger] comes_in(design, ports, driver, j, x, d));
                }
                assert forall|x: IdString, j: int, d: DelayT|
                    j < k && #[trigger] comes_in(design, ports, driver, j, x, d) && (forall|i: int, e: DelayT|
                        j < i < k ==> !(#[trigger] comes_in(design, ports, driver, i, x, e))) implies found[x] == d by {
                    if j < last {
                        assert(x != own) by {
                            if x == own {
                                assert(comes_in(design, ports, driver, last, x, up.delay));
                            }
                        }
                    }
                }
            },
            None => {
                assert forall|x: IdString, d: DelayT| !comes_in(design, ports, driver, last, x, d) by {
                }
                assert(found == before.drivers);
                assert forall|x: IdString| #[trigger] found.contains_key(x) <==> exists|j: int, d: DelayT|
                    j < k && #[trigger] comes_in(design, ports, driver, j, x, d) by {
                    assert(before.drivers.contains_key(x) <==> exists|j: int, d: DelayT|
                        j < k - 1 && #[trigger] comes_in(design, ports, driver, j, x, d));
                    if exists|j: int, d: DelayT| j < k && #[trigger] comes_in(design, ports, driver, j, x, d) {
                        let (j, d) = choose|j: int, d: DelayT|
                            j < k && #[trigger] comes_in(design, ports, driver, j, x, d);
                        assert(j != last);
                    }
                }
            },
        }
    }
}

/// A net behind one cell comes from the nets at all inputs of the cell that lead to it, each with the
/// slowest delay of its arc; of inputs from nets of one name the last counts.
pub proof fn nets_come_from_all_inputs_of_their_driver(design: Design, ports: Map<CellPin, PortFacts>, n: NetId)
    requires
        n.0 < design.nets@.len(),
        design.nets@[n.0 as int].driver.cell.0 != u32::MAX,
        !trace_ends(design, ports, design.nets@[n.0 as int].driver),
        sources_before(design, ports, design.nets@[n.0 as int].driver, design.nets@[n.0 as int].name),
    ensures
        ({
            let driver = design.nets@[n.0 as int].driver;
            let found = drivers_of(design, ports, n);
            &&& forall|x: IdString| #[trigger]
                found.contains_key(x) <==> exists|j: int, d: DelayT| #[trigger]
                    comes_in(design, ports, driver, j, x, d)
            &&& forall|x: IdString, j: int, d: DelayT| #[trigger]
                comes_in(design, ports, driver, j, x, d) && (forall|i: int, e: DelayT|
                    j < i ==> !(#[trigger] comes_in(design, ports, driver, i, x, e))) ==> found[x] == d
        }),
{
    let net = design.nets@[n.0 as int];
    let driver = net.driver;
    let len = design.cells@[driver.cell.0 as int].ports@.len();
    let names = net_names(design);
    lemma_names(design, n);
    let j = choose|j: int|
        0 <= j < len && upstream_at(ports, driver, #[trigger] design.cells@[driver.cell.0 as int].ports@[j]) is Some;
    let up = upstream_at(ports, driver, design.cells@[driver.cell.0 as int].ports@[j])->0;
    lemma_names(design, up.net);
    assert(names.len() >= 2) by {
        let rest = names.remove(net.name);
        assert(rest.contains(design.nets@[up.net.0 as int].name));
        if rest.len() == 0 {
            assert(rest =~= Set::<IdString>::empty());
        }
    }
    let empty = Trace { visited: Set::<IdString>::empty(), drivers: Map::<IdString, DelayT>::empty() };
    let seen = Trace { visited: empty.visited.insert(net.name), ..empty };
    lemma_behind_one_cell(design, ports, driver, seen, net.name, len, (names.len() - 1) as nat);
    let found = drivers_of(design, ports, n);
    assert(found == traced_inputs(design, ports, driver, seen, 0, len, (names.len() - 1) as nat).drivers);
    assert forall|x: IdString| #[trigger] found.contains_key(x) <==> exists|j: int, d: DelayT| #[trigger]
        comes_in(design, ports, driver, j, x, d) by {
        if exists|j: int, d: DelayT| #[trigger] comes_in(design, ports, driver, j, x, d) {
            let (j, d) = choose|j: int, d: DelayT| #[trigger] comes_in(design, ports, driver, j, x, d);
            assert(j < len && comes_in(design, ports, driver, j, x, d));
        }
    }
}

} // verus!
