//! Clocks that come from one source: tracing clock nets back through combinational logic.

use crate::ids::IdMap;
use crate::netlist::{CellPin, CellPort, Design, Net, NetId};
use crate::timing::analyser::{class_in, facts_of, port_class_or_comb, ClockNetPair, PerPort, PortFacts};
use crate::timing::delay::{held, held_add, held_sub, DelayT};
use crate::timing::domain::{CellArcType, ClockDomain, DomainRegistry};
use crate::timing::kinds::TimingPortClass;
use crate::timing::propagation::{arc_to, find_arc};
use crate::types::enums::PortType;
use crate::types::id_string::IdString;
use vstd::prelude::*;

verus! {

/// What the trace has found: the nets that it went through, and the nets where it ended, with
/// the delay from there.
pub struct Trace {
    pub visited: Set<IdString>,
    pub drivers: Map<IdString, DelayT>,
}

/// A net before another, through a combinational cell.
#[derive(Clone, Copy, PartialEq, Eq, Hash, Debug, Structural)]
pub struct Upstream {
    pub net: NetId,
    pub delay: DelayT,
}

/// The net at a combinational input that has an arc to the driving pin.
pub open spec fn upstream_at(
    ports: Map<CellPin, PortFacts>,
    driver: CellPin,
    port: CellPort,
) -> Option<Upstream> {
    let pin = CellPin { cell: driver.cell, port: port.name };
    if port.port_type is In && port.net is Some && ports.contains_key(pin) && ports[pin].port_class is Combinational {
        match arc_to(ports[pin].arcs, CellArcType::Combinational, driver.port) {
            Some(arc) => Some(Upstream { net: port.net->0, delay: arc.value.greatest() }),
            None => None,
        }
    } else {
        None
    }
}

/// Some input of the driving cell leads further back.
pub open spec fn goes_back(design: Design, ports: Map<CellPin, PortFacts>, driver: CellPin) -> bool {
    exists|j: int|
        0 <= j < design.cell_of(driver.cell).ports@.len() && upstream_at(
            ports,
            driver,
            #[trigger] design.cell_of(driver.cell).ports@[j],
        ) is Some
}

/// The trace ends at the net: its driver is the only port of its cell or no combinational
/// output, or no input leads further back.
pub open spec fn trace_ends(design: Design, ports: Map<CellPin, PortFacts>, driver: CellPin) -> bool {
    ||| design.cell_of(driver.cell).ports@.len() == 1
    ||| !(class_in(ports, driver) is Combinational)
    ||| !goes_back(design, ports, driver)
}

/// The trace with a net noted as an end.
pub open spec fn noted(st: Trace, name: IdString, acc: DelayT) -> Trace {
    Trace { drivers: st.drivers.insert(name, acc), ..st }
}

/// The trace after going back from a net, `acc` behind the clock: a net that was met before, or
/// where the trace ends, is noted. At most `depth` nets lie on one branch.
pub open spec fn traced(
    design: Design,
    ports: Map<CellPin, PortFacts>,
    n: NetId,
    st: Trace,
    acc: DelayT,
    depth: nat,
) -> Trace
    decreases depth, 0nat,
{
    let net = design.net_of(n);
    if !net.driver.connected() {
        st
    } else if st.visited.contains(net.name) {
        noted(st, net.name, acc)
    } else if depth == 0 {
        st
    } else {
        let seen = Trace { visited: st.visited.insert(net.name), ..st };
        if trace_ends(design, ports, net.driver) {
            noted(seen, net.name, acc)
        } else {
            traced_inputs(
                design,
                ports,
                net.driver,
                seen,
                acc,
                design.cell_of(net.driver.cell).ports@.len(),
                (depth - 1) as nat,
            )
        }
    }
}

/// The trace after going back from the first `k` ports of the driving cell.
pub open spec fn traced_inputs(
    design: Design,
    ports: Map<CellPin, PortFacts>,
    driver: CellPin,
    st: Trace,
    acc: DelayT,
    k: nat,
    depth: nat,
) -> Trace
    decreases depth, 1 + k,
{
    if k == 0 {
        st
    } else {
        let rest = traced_inputs(design, ports, driver, st, acc, (k - 1) as nat, depth);
        match upstream_at(ports, driver, design.cell_of(driver.cell).ports@[k - 1]) {
            Some(up) => traced(design, ports, up.net, rest, held(acc + up.delay), depth),
            None => rest,
        }
    }
}

/// The names of the nets.
pub open spec fn net_names(design: Design) -> Set<IdString> {
    design.nets@.map_values(|n: Net| n.name).to_set()
}

proof fn lemma_net_name(design: Design, n: NetId)
    requires
        design.valid_net(n),
    ensures
        net_names(design).contains(design.net_of(n).name),
        net_names(design).finite(),
        net_names(design).len() <= design.nets@.len(),
{
    let names = design.nets@.map_values(|n: Net| n.name);
    assert(names[n.0 as int] == design.net_of(n).name);
    vstd::seq_lib::seq_to_set_is_finite(names);
    names.lemma_cardinality_of_set();
}

/// The net names that the trace has not met.
spec fn left_over(design: Design, visited: Set<IdString>) -> Set<IdString> {
    net_names(design).difference(visited)
}

/// The input that leads further back, if a port is one.
fn find_upstream(ports: &IdMap<CellPin, PerPort>, driver: CellPin, port: CellPort) -> (r: Option<Upstream>)
    ensures
        r == upstream_at(facts_of(ports@), driver, port),
{
    let ghost facts = facts_of(ports@);
    if let PortType::In = port.port_type {
        if let Some(n) = port.net {
            if let Some(pd) = ports.get(CellPin { cell: driver.cell, port: port.name }) {
                if let TimingPortClass::Combinational = pd.port_class {
                    if let Some(arc) = find_arc(&pd.cell_arcs, CellArcType::Combinational, driver.port) {
                        return Some(Upstream { net: n, delay: arc.value.max_delay() });
                    }
                }
            }
        }
    }
    None
}

fn ends_here(design: &Design, ports: &IdMap<CellPin, PerPort>, driver: CellPin) -> (r: bool)
    requires
        design.valid_cell(driver.cell),
    ensures
        r == trace_ends(*design, facts_of(ports@), driver),
{
    let cell = design.cell(driver.cell);
    if cell.ports.len() == 1 {
        return true;
    }
    match port_class_or_comb(ports, driver) {
        TimingPortClass::Combinational => {},
        _ => {
            return true;
        },
    }
    for j in 0..cell.ports.len()
        invariant
            *cell == design.cell_of(driver.cell),
            forall|k: int|
                0 <= k < j ==> upstream_at(facts_of(ports@), driver, #[trigger] cell.ports@[k]) is None,
            class_in(facts_of(ports@), driver) is Combinational,
            cell.ports@.len() != 1,
    {
        let port = cell.ports[j];
        assert(port == cell.ports@[j as int]);
        if find_upstream(ports, driver, port).is_some() {
            assert(goes_back(*design, facts_of(ports@), driver));
            return false;
        }
    }
    true
}

/// The trace as it is kept while running.
pub struct TraceMaps {
    pub visited: IdMap<IdString, bool>,
    pub drivers: IdMap<IdString, DelayT>,
}

impl TraceMaps {
    pub open spec fn trace(self) -> Trace {
        Trace { visited: self.visited@.dom(), drivers: self.drivers@ }
    }
}

/// Finds the nets that a net comes from, going back through combinational logic.
fn find_net_drivers(
    design: &Design,
    ports: &IdMap<CellPin, PerPort>,
    n: NetId,
    st: &mut TraceMaps,
    acc: DelayT,
    Ghost(depth): Ghost<nat>,
)
    requires
        design.wf(),
        design.valid_net(n),
        left_over(*design, old(st).trace().visited).len() <= depth,
    ensures
        final(st).trace() == traced(*design, facts_of(ports@), n, old(st).trace(), acc, depth),
        old(st).trace().visited.subset_of(final(st).trace().visited),
    decreases depth,
{
    let ghost facts = facts_of(ports@);
    let ghost before = st.trace();
    let net = design.net(n);
    assert(design.net_ok(*net));
    if !net.driver.is_valid() {
        return ;
    }
    if st.visited.contains_key(net.name) {
        let _ = st.drivers.insert(net.name, acc);
        return ;
    }
    let ghost seen = Trace { visited: before.visited.insert(net.name), ..before };
    proof {
        lemma_net_name(*design, n);
        let was = left_over(*design, before.visited);
        assert(was.contains(net.name));
        assert(left_over(*design, seen.visited) =~= was.remove(net.name));
        assert(was.finite());
        assert(was.len() > 0);
    }
    let _ = st.visited.insert(net.name, true);
    assert(st.trace().visited =~= seen.visited);
    let driver = net.driver;
    if ends_here(design, ports, driver) {
        let _ = st.drivers.insert(net.name, acc);
        return ;
    }
    let cell = design.cell(driver.cell);
    let ghost deeper = (depth - 1) as nat;
    for k in 0..cell.ports.len()
        invariant
            design.wf(),
            design.valid_cell(driver.cell),
            *cell == design.cell_of(driver.cell),
            facts == facts_of(ports@),
            deeper < depth,
            st.trace() == traced_inputs(*design, facts, driver, seen, acc, k as nat, deeper),
            seen.visited.subset_of(st.trace().visited),
            left_over(*design, seen.visited).len() <= deeper,
            left_over(*design, seen.visited).finite(),
    {
        let port = cell.ports[k];
        assert(design.cell_ok(*cell));
        if let Some(up) = find_upstream(ports, driver, port) {
            proof {
                assert(cell.ports@[k as int].net == Some(up.net));
                assert(left_over(*design, st.trace().visited).subset_of(left_over(*design, seen.visited)));
                vstd::set_lib::lemma_len_subset(
                    left_over(*design, st.trace().visited),
                    left_over(*design, seen.visited),
                );
            }
            find_net_drivers(design, ports, up.net, st, held_add(acc, up.delay), Ghost(deeper));
        }
    }
}

/// The nets that a net comes from, with the delay from each.
pub open spec fn drivers_of(design: Design, ports: Map<CellPin, PortFacts>, n: NetId) -> Map<IdString, DelayT> {
    traced(
        design,
        ports,
        n,
        Trace { visited: Set::empty(), drivers: Map::empty() },
        0,
        net_names(design).len(),
    ).drivers
}

/// The nets that a net comes from, with the delay from each.
pub fn net_drivers(design: &Design, ports: &IdMap<CellPin, PerPort>, n: NetId) -> (r: IdMap<IdString, DelayT>)
    requires
        design.wf(),
        design.valid_net(n),
    ensures
        r@ == drivers_of(*design, facts_of(ports@), n),
{
    let mut st = TraceMaps { visited: IdMap::new(), drivers: IdMap::new() };
    proof {
        lemma_net_name(*design, n);
        assert(st.trace().visited =~= Set::<IdString>::empty());
        assert(left_over(*design, st.trace().visited) =~= net_names(*design));
    }
    find_net_drivers(design, ports, n, &mut st, 0, Ghost(net_names(*design).len()));
    st.drivers
}

/// The first net with a name, from index `i` on.
pub open spec fn net_named(design: Design, name: IdString, i: int) -> Option<NetId>
    decreases design.nets@.len() - i,
{
    if i >= design.nets@.len() {
        None
    } else if design.nets@[i].name == name {
        Some(NetId(i as u32))
    } else {
        net_named(design, name, i + 1)
    }
}

proof fn lemma_net_named(design: Design, name: IdString, i: int, n: int)
    requires
        0 <= i <= n <= design.nets@.len(),
        forall|k: int| i <= k < n ==> (#[trigger] design.nets@[k]).name != name,
    ensures
        net_named(design, name, i) == net_named(design, name, n),
    decreases n - i,
{
    if i < n {
        lemma_net_named(design, name, i + 1, n);
    }
}

/// The name is that of the clock net of a domain.
pub open spec fn clocks_domain(domains: Seq<ClockDomain>, name: IdString) -> bool {
    name != IdString(0) && exists|i: int| 0 <= i < domains.len() && (#[trigger] domains[i]).clock_net == name
}

/// The nets that a clock comes from; none where the name is no clock or the clock has no driver.
pub open spec fn clock_sources(
    design: Design,
    ports: Map<CellPin, PortFacts>,
    domains: Seq<ClockDomain>,
    name: IdString,
) -> Option<Map<IdString, DelayT>> {
    match net_named(design, name, 0) {
        Some(n) if clocks_domain(domains, name) && design.net_of(n).driver.connected() => Some(
            drivers_of(design, ports, n),
        ),
        _ => None,
    }
}

/// The name is the only one that both maps have.
pub open spec fn only_common(a: Map<IdString, DelayT>, b: Map<IdString, DelayT>, k: IdString) -> bool {
    &&& a.contains_key(k)
    &&& b.contains_key(k)
    &&& forall|x: IdString| #[trigger] a.contains_key(x) && b.contains_key(x) ==> x == k
}

/// The delay from one clock to another, where the two have exactly one source in common: the
/// delay of the second behind it, less that of the first.
pub open spec fn clock_delay(
    design: Design,
    ports: Map<CellPin, PortFacts>,
    domains: Seq<ClockDomain>,
    pair: ClockNetPair,
    delay: DelayT,
) -> bool {
    let a = clock_sources(design, ports, domains, pair.from);
    let b = clock_sources(design, ports, domains, pair.to);
    &&& pair.from != pair.to
    &&& a is Some
    &&& b is Some
    &&& exists|k: IdString| #[trigger] only_common(a->0, b->0, k) && delay == held(b->0[k] - a->0[k])
}

/// The map holds the delay between every two related clocks, and nothing else.
pub open spec fn relates_clocks(
    design: Design,
    ports: Map<CellPin, PortFacts>,
    domains: Seq<ClockDomain>,
    delays: Map<ClockNetPair, DelayT>,
) -> bool {
    &&& forall|p: ClockNetPair| #[trigger]
        delays.contains_key(p) ==> clock_delay(design, ports, domains, p, delays[p])
    &&& forall|p: ClockNetPair, d: DelayT| #[trigger]
        clock_delay(design, ports, domains, p, d) ==> delays.contains_key(p)
}

/// Clocks are related both ways: the delay back is the delay forth with the other sign.
pub proof fn clocks_relate_both_ways(
    design: Design,
    ports: Map<CellPin, PortFacts>,
    domains: Seq<ClockDomain>,
    delays: Map<ClockNetPair, DelayT>,
    pair: ClockNetPair,
)
    requires
        relates_clocks(design, ports, domains, delays),
        delays.contains_key(pair),
    ensures
        delays.contains_key(ClockNetPair { from: pair.to, to: pair.from }),
        i32::MIN < delays[pair] < i32::MAX ==> delays[ClockNetPair { from: pair.to, to: pair.from }]
            == -delays[pair],
{
    let back = ClockNetPair { from: pair.to, to: pair.from };
    let a = clock_sources(design, ports, domains, pair.from)->0;
    let b = clock_sources(design, ports, domains, pair.to)->0;
    assert(clock_delay(design, ports, domains, pair, delays[pair]));
    let k = choose|k: IdString| #[trigger] only_common(a, b, k) && delays[pair] == held(b[k] - a[k]);
    assert(only_common(b, a, k));
    assert(clock_delay(design, ports, domains, back, held(a[k] - b[k])));
    assert(clock_delay(design, ports, domains, back, delays[back]));
    let m = choose|m: IdString| #[trigger] only_common(b, a, m) && delays[back] == held(a[m] - b[m]);
    assert(m == k);
}

/// A clock and the nets that it comes from.
struct ClockSources {
    name: IdString,
    drivers: IdMap<IdString, DelayT>,
}

/// The clocks in the list are those of the first `k` domains, each once.
spec fn sources_upto(
    design: Design,
    ports: Map<CellPin, PortFacts>,
    domains: Seq<ClockDomain>,
    list: Seq<ClockSources>,
    k: int,
) -> bool {
    &&& forall|i: int|
        0 <= i < list.len() ==> clock_sources(design, ports, domains, (#[trigger] list[i]).name) == Some(
            list[i].drivers@,
        )
    &&& forall|i: int, j: int| 0 <= i < j < list.len() ==> (#[trigger] list[i]).name != (#[trigger] list[j]).name
    &&& forall|i: int|
        0 <= i < k && clock_sources(design, ports, domains, (#[trigger] domains[i]).clock_net) is Some ==> in_list(
            list,
            domains[i].clock_net,
        )
}

spec fn in_list(list: Seq<ClockSources>, name: IdString) -> bool {
    exists|i: int| 0 <= i < list.len() && (#[trigger] list[i]).name == name
}

fn collect_sources(design: &Design, ports: &IdMap<CellPin, PerPort>, registry: &DomainRegistry) -> (list: Vec<
    ClockSources,
>)
    requires
        design.wf(),
    ensures
        sources_upto(
            *design,
            facts_of(ports@),
            registry.domains@,
            list@,
            registry.domains@.len() as int,
        ),
{
    let ghost facts = facts_of(ports@);
    let ghost domains = registry.domains@;
    let mut list: Vec<ClockSources> = Vec::new();
    for k in 0..registry.domains.len()
        invariant
            design.wf(),
            facts == facts_of(ports@),
            domains == registry.domains@,
            sources_upto(*design, facts, domains, list@, k as int),
    {
        let name: IdString = registry.domains[k].clock_net;
        let mut known: bool = false;
        for i in 0..list.len()
            invariant
                known == exists|j: int| 0 <= j < i && (#[trigger] list@[j]).name == name,
        {
            if list[i].name == name {
                known = true;
            }
        }
        assert(known == in_list(list@, name));
        let ghost before = list@;
        if !known && !name.is_empty() {
            let found = design.net_by_name(name);
            proof {
                assert(domains[k as int].clock_net == name);
                assert(clocks_domain(domains, name));
                match found {
                    Some(n) => {
                        lemma_net_named(*design, name, 0, n.0 as int);
                        assert(net_named(*design, name, 0) == Some(n));
                    },
                    None => {
                        lemma_net_named(*design, name, 0, design.nets@.len() as int);
                    },
                }
            }
            if let Some(n) = found {
                if design.net(n).driver.is_valid() {
                    let drivers = net_drivers(design, ports, n);
                    list.push(ClockSources { name, drivers });
                    proof {
                        assert(list@[before.len() as int].name == name);
                    }
                }
            }
        }
        proof {
            assert forall|i: int|
                0 <= i < k + 1 && clock_sources(*design, facts, domains, (#[trigger] domains[i]).clock_net) is Some implies in_list(
                list@,
                domains[i].clock_net,
            ) by {
                if in_list(before, domains[i].clock_net) {
                    let j = choose|j: int| 0 <= j < before.len() && (#[trigger] before[j]).name == domains[i].clock_net;
                    assert(list@[j].name == domains[i].clock_net);
                } else if i == k {
                    assert(domains[i].clock_net == name);
                    assert(list@.len() == before.len() + 1);
                    assert(list@[before.len() as int].name == name);
                }
            }
        }
    }
    list
}

/// The only name that two maps have in common.
fn find_only_common(a: &IdMap<IdString, DelayT>, b: &IdMap<IdString, DelayT>) -> (r: Option<IdString>)
    ensures
        match r {
            Some(k) => only_common(a@, b@, k),
            None => forall|k: IdString| !#[trigger] only_common(a@, b@, k),
        },
{
    let names = a.keys();
    let mut found: Option<IdString> = None;
    for i in 0..names.len()
        invariant
            names@.no_duplicates(),
            forall|x: IdString| #[trigger] names@.contains(x) <==> a@.contains_key(x),
            match found {
                Some(k) => {
                    &&& a@.contains_key(k)
                    &&& b@.contains_key(k)
                    &&& exists|j: int| 0 <= j < i && names@[j] == k
                    &&& forall|j: int| 0 <= j < i && b@.contains_key(#[trigger] names@[j]) ==> names@[j] == k
                },
                None => forall|j: int| 0 <= j < i ==> !b@.contains_key(#[trigger] names@[j]),
            },
    {
        let name: IdString = names[i];
        assert(names@.contains(name));
        if b.contains_key(name) {
            if let Some(k) = found {
                proof {
                    assert(k != name) by {
                        let j = choose|j: int| 0 <= j < i && names@[j] == k;
                        assert(names@[j] != names@[i as int]);
                    }
                    assert forall|x: IdString| !#[trigger] only_common(a@, b@, x) by {
                        if only_common(a@, b@, x) {
                            assert(a@.contains_key(k) && a@.contains_key(name));
                        }
                    }
                }
                return None;
            }
            found = Some(name);
            assert(names@[i as int] == name);
        }
    }
    proof {
        assert forall|x: IdString| #[trigger] a@.contains_key(x) && b@.contains_key(x) implies found == Some(x) by {
            assert(names@.contains(x));
            let j = choose|j: int| 0 <= j < names@.len() && names@[j] == x;
            assert(b@.contains_key(names@[j]));
        }
        if found is None {
            assert forall|k: IdString| !#[trigger] only_common(a@, b@, k) by {
                if only_common(a@, b@, k) {
                    assert(a@.contains_key(k));
                }
            }
        }
    }
    found
}

/// Finds the clocks that share exactly one source, and the delays between them.
pub fn identify_related_domains(
    design: &Design,
    ports: &IdMap<CellPin, PerPort>,
    registry: &DomainRegistry,
) -> (delays: IdMap<ClockNetPair, DelayT>)
    requires
        design.wf(),
    ensures
        relates_clocks(*design, facts_of(ports@), registry.domains@, delays@),
{
    let ghost facts = facts_of(ports@);
    let ghost domains = registry.domains@;
    let list = collect_sources(design, ports, registry);
    let mut delays: IdMap<ClockNetPair, DelayT> = IdMap::new();
    for i in 0..list.len()
        invariant
            facts == facts_of(ports@),
            domains == registry.domains@,
            sources_upto(*design, facts, domains, list@, domains.len() as int),
            forall|p: ClockNetPair| #[trigger]
                delays@.contains_key(p) ==> clock_delay(*design, facts, domains, p, delays@[p]),
            forall|a: int, b: int|
                0 <= a < i && 0 <= b < list@.len() ==> #[trigger] pair_done(list@, delays@, a, b),
    {
        for j in 0..list.len()
            invariant
                i < list@.len(),
                facts == facts_of(ports@),
                domains == registry.domains@,
                sources_upto(*design, facts, domains, list@, domains.len() as int),
                forall|p: ClockNetPair| #[trigger]
                    delays@.contains_key(p) ==> clock_delay(*design, facts, domains, p, delays@[p]),
                forall|a: int, b: int|
                    0 <= a < i && 0 <= b < list@.len() ==> #[trigger] pair_done(list@, delays@, a, b),
                forall|b: int| 0 <= b < j ==> #[trigger] pair_done(list@, delays@, i as int, b),
        {
            let ghost before = delays@;
            if i != j {
                let a = &list[i].drivers;
                let b = &list[j].drivers;
                let pair = ClockNetPair { from: list[i].name, to: list[j].name };
                assert(pair.from != pair.to);
                if let Some(k) = find_only_common(a, b) {
                    let ka: DelayT = match a.get(k) {
                        Some(d) => *d,
                        None => 0,
                    };
                    let kb: DelayT = match b.get(k) {
                        Some(d) => *d,
                        None => 0,
                    };
                    let d: DelayT = held_sub(kb, ka);
                    let _ = delays.insert(pair, d);
                    proof {
                        assert(list@[i as int].drivers == *a && list@[j as int].drivers == *b);
                        let sa = clock_sources(*design, facts, domains, pair.from);
                        let sb = clock_sources(*design, facts, domains, pair.to);
                        assert(sa == Some(a@) && sb == Some(b@));
                        assert(only_common(sa->0, sb->0, k));
                        assert(clock_delay(*design, facts, domains, pair, d));
                    }
                }
            }
            proof {
                assert(pair_done(list@, delays@, i as int, j as int));
                assert forall|x: int, y: int| 0 <= x < i && 0 <= y < list@.len() implies #[trigger] pair_done(
                    list@,
                    delays@,
                    x,
                    y,
                ) by {
                    assert(pair_done(list@, before, x, y));
                }
                assert forall|y: int| 0 <= y < j implies #[trigger] pair_done(list@, delays@, i as int, y) by {
                    assert(pair_done(list@, before, i as int, y));
                }
            }
        }
    }
    proof {
        assert forall|p: ClockNetPair, d: DelayT| #[trigger]
            clock_delay(*design, facts, domains, p, d) implies delays@.contains_key(p) by {
            let sa = clock_sources(*design, facts, domains, p.from)->0;
            let sb = clock_sources(*design, facts, domains, p.to)->0;
            lemma_in_list(*design, facts, domains, list@, p.from);
            lemma_in_list(*design, facts, domains, list@, p.to);
            let a = choose|a: int| 0 <= a < list@.len() && (#[trigger] list@[a]).name == p.from;
            let b = choose|b: int| 0 <= b < list@.len() && (#[trigger] list@[b]).name == p.to;
            assert(pair_done(list@, delays@, a, b));
            let k = choose|k: IdString| #[trigger] only_common(sa, sb, k) && d == held(sb[k] - sa[k]);
            assert(list@[a].drivers@ == sa && list@[b].drivers@ == sb);
            assert(only_common(list@[a].drivers@, list@[b].drivers@, k));
        }
    }
    delays
}

proof fn lemma_in_list(
    design: Design,
    ports: Map<CellPin, PortFacts>,
    domains: Seq<ClockDomain>,
    list: Seq<ClockSources>,
    name: IdString,
)
    requires
        sources_upto(design, ports, domains, list, domains.len() as int),
        clock_sources(design, ports, domains, name) is Some,
    ensures
        in_list(list, name),
{
    let i = choose|i: int| 0 <= i < domains.len() && (#[trigger] domains[i]).clock_net == name;
    assert(clock_sources(design, ports, domains, domains[i].clock_net) is Some);
}

/// Two clocks of the list that share exactly one source have an entry.
spec fn pair_done(list: Seq<ClockSources>, delays: Map<ClockNetPair, DelayT>, a: int, b: int) -> bool {
    list[a].name != list[b].name && (exists|k: IdString| #[trigger]
        only_common(list[a].drivers@, list[b].drivers@, k)) ==> delays.contains_key(
        ClockNetPair { from: list[a].name, to: list[b].name },
    )
}

} // verus!
