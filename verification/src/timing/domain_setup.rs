//! Clock domains of the ports, and the pairs of domains that signals cross.

use crate::ids::IdMap;
use crate::netlist::{CellPin, Design, NetId};
use crate::timing::analyser::{
    facts_of, pins_in_design, ClockedPin, PerDomain, PerDomainPair, PerPort, PortFacts,
};
use crate::timing::delay::{half_of, half_toward_zero, DelayPair, DelayT};
use crate::timing::domain::{
    CellArc, CellArcType, ClockDomain, ClockDomainId, ClockDomainPair, DomainKey, DomainRegistry,
};
use crate::timing::kinds::ClockEdge;
use crate::timing::levels::{edges_ok, leads_to, lemma_push, rows};
use crate::timing::propagation::{collect_steps, collect_steps_back, steps_back, steps_from, Step};
use crate::timing::spread::{lists_ok, marks, spread, spread_of, Mark};
use crate::types::enums::PortType;
use crate::types::id_string::IdString;
use vstd::prelude::*;

verus! {

/// A port of a register, its clock port, and the edge that it reacts to.
#[derive(Clone, Copy, PartialEq, Eq, Hash, Debug, Structural)]
pub struct RegisterPin {
    pub at: ClockedPin,
    pub edge: ClockEdge,
}

/// The first `k` arcs of a kind at a pin, as register pins.
pub open spec fn register_pins(pin: CellPin, arcs: Seq<CellArc>, arc_type: CellArcType, k: int) -> Seq<RegisterPin>
    decreases k,
{
    if k <= 0 {
        Seq::empty()
    } else {
        let rest = register_pins(pin, arcs, arc_type, k - 1);
        let arc = arcs[k - 1];
        if arc.arc_type == arc_type {
            rest.push(RegisterPin { at: ClockedPin { pin, clock_port: arc.other_port }, edge: arc.edge })
        } else {
            rest
        }
    }
}

/// The register pins at one pin: those of the clock-to-output arcs of an output, or those of the
/// setup arcs of an input.
pub open spec fn pins_at(ports: Map<CellPin, PortFacts>, pin: CellPin, outputs: bool) -> Seq<RegisterPin> {
    if !ports.contains_key(pin) || (ports[pin].port_type is In) == outputs {
        Seq::empty()
    } else {
        register_pins(
            pin,
            ports[pin].arcs,
            if outputs {
                CellArcType::ClockToQ
            } else {
                CellArcType::Setup
            },
            ports[pin].arcs.len() as int,
        )
    }
}

/// The pins where paths begin, in the order of the ports.
pub open spec fn launches(ports: Map<CellPin, PortFacts>, order: Seq<CellPin>, i: int) -> Seq<RegisterPin>
    decreases i,
{
    if i <= 0 {
        Seq::empty()
    } else {
        launches(ports, order, i - 1) + pins_at(ports, order[i - 1], true)
    }
}

/// The pins where paths end, from the last port of the order to the one at position `i`.
pub open spec fn captures(ports: Map<CellPin, PortFacts>, order: Seq<CellPin>, i: int) -> Seq<RegisterPin>
    decreases order.len() - i,
{
    if i >= order.len() || i < 0 {
        Seq::empty()
    } else {
        captures(ports, order, i + 1) + pins_at(ports, order[i], false)
    }
}

fn collect_pins_at(ports: &IdMap<CellPin, PerPort>, pin: CellPin, outputs: bool, r: &mut Vec<RegisterPin>)
    ensures
        final(r)@ == old(r)@ + pins_at(facts_of(ports@), pin, outputs),
{
    let ghost facts = facts_of(ports@);
    let ghost before = r@;
    let pd = match ports.get(pin) {
        Some(pd) => pd,
        None => {
            assert(r@ =~= before + pins_at(facts, pin, outputs));
            return ;
        },
    };
    let is_input: bool = match pd.port_type {
        PortType::In => true,
        _ => false,
    };
    if is_input == outputs {
        assert(r@ =~= before + pins_at(facts, pin, outputs));
        return ;
    }
    let arc_type = if outputs {
        CellArcType::ClockToQ
    } else {
        CellArcType::Setup
    };
    assert(r@ =~= before + register_pins(pin, pd.cell_arcs@, arc_type, 0));
    for k in 0..pd.cell_arcs.len()
        invariant
            r@ == before + register_pins(pin, pd.cell_arcs@, arc_type, k as int),
    {
        let arc = pd.cell_arcs[k];
        if arc.arc_type == arc_type {
            r.push(RegisterPin { at: ClockedPin { pin, clock_port: arc.other_port }, edge: arc.edge });
        }
        assert(r@ =~= before + register_pins(pin, pd.cell_arcs@, arc_type, k + 1));
    }
}

fn collect_launches(ports: &IdMap<CellPin, PerPort>, order: &Vec<CellPin>) -> (r: Vec<RegisterPin>)
    ensures
        r@ == launches(facts_of(ports@), order@, order@.len() as int),
{
    let mut r: Vec<RegisterPin> = Vec::new();
    for i in 0..order.len()
        invariant
            r@ == launches(facts_of(ports@), order@, i as int),
    {
        collect_pins_at(ports, order[i], true, &mut r);
    }
    r
}

fn collect_captures(ports: &IdMap<CellPin, PerPort>, order: &Vec<CellPin>) -> (r: Vec<RegisterPin>)
    ensures
        r@ == captures(facts_of(ports@), order@, 0),
{
    let mut r: Vec<RegisterPin> = Vec::new();
    let mut i: usize = order.len();
    while i > 0
        invariant
            i <= order@.len(),
            r@ == captures(facts_of(ports@), order@, i as int),
        decreases i,
    {
        i = i - 1;
        collect_pins_at(ports, order[i], false, &mut r);
    }
    r
}

/// The clock domain that a register pin asks for; none where its clock port is not connected.
pub open spec fn wanted_domain(design: Design, clocks: Map<IdString, DelayT>, p: RegisterPin) -> Option<ClockDomain> {
    match design.cell_of(p.at.pin.cell).net_at(p.at.clock_port) {
        Some(n) => {
            let net = design.net_of(n);
            Some(
                ClockDomain {
                    clock_net: net.name,
                    edge: p.edge,
                    period: if net.clock_constraint > 0 {
                        net.clock_constraint
                    } else if clocks.contains_key(net.name) {
                        clocks[net.name]
                    } else {
                        0
                    },
                },
            )
        },
        None => None,
    }
}

/// The number of the domain of a register pin: that of the domain that it asks for, and that of
/// the domain without a clock where it asks for none or the registry has no number left for it.
pub open spec fn domain_of(
    registry: DomainRegistry,
    design: Design,
    clocks: Map<IdString, DelayT>,
    p: RegisterPin,
) -> ClockDomainId {
    match wanted_domain(design, clocks, p) {
        Some(d) if registry.has(d.clock_net, d.edge) => registry.number(d.clock_net, d.edge),
        _ => ClockDomainId(0),
    }
}

/// Some domain of the list has the clock net and the edge.
pub open spec fn known_domain(domains: Seq<ClockDomain>, d: ClockDomain) -> bool {
    exists|i: int|
        0 <= i < domains.len() && (#[trigger] domains[i]).clock_net == d.clock_net && domains[i].edge == d.edge
}

/// The domains after the first `k` pins of a list have asked for theirs: each new one goes to the
/// end, as long as there are numbers left.
pub open spec fn enrolled(
    design: Design,
    clocks: Map<IdString, DelayT>,
    domains: Seq<ClockDomain>,
    list: Seq<RegisterPin>,
    k: int,
) -> Seq<ClockDomain>
    decreases k,
{
    if k <= 0 {
        domains
    } else {
        let rest = enrolled(design, clocks, domains, list, k - 1);
        match wanted_domain(design, clocks, list[k - 1]) {
            Some(d) => if known_domain(rest, d) || rest.len() >= u32::MAX {
                rest
            } else {
                rest.push(d)
            },
            None => rest,
        }
    }
}

/// What one registry keeps when it grows into another.
pub open spec fn grows_to(old_one: DomainRegistry, new_one: DomainRegistry) -> bool {
    &&& old_one.wf()
    &&& new_one.wf()
    &&& old_one.domains@.len() <= new_one.domains@.len()
    &&& forall|i: int|
        0 <= i < old_one.domains@.len() ==> #[trigger] new_one.domains@[i] == old_one.domains@[i]
}

/// The pins of a list have the domains that they asked for, or there was no number left.
pub open spec fn settled(registry: DomainRegistry, design: Design, clocks: Map<IdString, DelayT>, p: RegisterPin) -> bool {
    match wanted_domain(design, clocks, p) {
        Some(d) => registry.has(d.clock_net, d.edge) || registry.domains@.len() >= u32::MAX,
        None => true,
    }
}

proof fn lemma_known(registry: DomainRegistry, d: ClockDomain)
    requires
        registry.wf(),
    ensures
        known_domain(registry.domains@, d) <==> registry.has(d.clock_net, d.edge),
{
    let k = DomainKey { clock_net: d.clock_net, edge: d.edge };
    if registry.has(d.clock_net, d.edge) {
        assert(registry.domain_map@.contains_key(k));
        let i = registry.domain_map@[k].0 as int;
        assert(registry.domains@[i].clock_net == d.clock_net);
    }
    if known_domain(registry.domains@, d) {
        let i = choose|i: int|
            0 <= i < registry.domains@.len() && (#[trigger] registry.domains@[i]).clock_net == d.clock_net
                && registry.domains@[i].edge == d.edge;
        assert(crate::timing::domain::domain_key(registry.domains@[i]) == k);
    }
}

proof fn lemma_domain_stays(
    old_one: DomainRegistry,
    new_one: DomainRegistry,
    design: Design,
    clocks: Map<IdString, DelayT>,
    p: RegisterPin,
)
    requires
        grows_to(old_one, new_one),
        settled(old_one, design, clocks, p),
    ensures
        settled(new_one, design, clocks, p),
        domain_of(new_one, design, clocks, p) == domain_of(old_one, design, clocks, p),
{
    if let Some(d) = wanted_domain(design, clocks, p) {
        let k = DomainKey { clock_net: d.clock_net, edge: d.edge };
        lemma_known(old_one, d);
        lemma_known(new_one, d);
        if old_one.has(d.clock_net, d.edge) {
            let i = old_one.domain_map@[k].0 as int;
            assert(old_one.domain_map@.contains_key(k));
            assert(new_one.domains@[i] == old_one.domains@[i]);
            assert(crate::timing::domain::domain_key(new_one.domains@[i]) == k);
        } else {
            assert(new_one.domains@ =~= old_one.domains@);
        }
    }
}

/// The number of the domain of a register pin, which is entered in the registry if it is new.
pub fn resolve_domain_id(
    design: &Design,
    clocks: &IdMap<IdString, DelayT>,
    registry: &mut DomainRegistry,
    p: RegisterPin,
) -> (r: ClockDomainId)
    requires
        design.wf(),
        design.valid_cell(p.at.pin.cell),
        old(registry).wf(),
    ensures
        final(registry).wf(),
        r == domain_of(*final(registry), *design, clocks@, p),
        final(registry).domains@ == enrolled(*design, clocks@, old(registry).domains@, seq![p], 1),
        final(registry).valid(r),
        grows_to(*old(registry), *final(registry)),
        settled(*final(registry), *design, clocks@, p),
{
    let ghost base = registry.domains@;
    proof {
        assert(enrolled(*design, clocks@, base, seq![p], 0) == base);
        assert(seq![p][0] == p);
    }
    let cell = design.cell(p.at.pin.cell);
    let n: NetId = match cell.port_net(p.at.clock_port) {
        Some(n) => n,
        None => {
            return registry.async_domain;
        },
    };
    proof {
        crate::netlist::lemma_first_port(cell.ports@, p.at.clock_port);
        assert(design.cell_ok(*cell));
        assert(cell.ports@[cell.port_index(p.at.clock_port)].net == Some(n));
    }
    let net = design.net(n);
    let period: DelayT = if net.clock_constraint > 0 {
        net.clock_constraint
    } else {
        match clocks.get(net.name) {
            Some(p) => *p,
            None => 0,
        }
    };
    let ghost d = ClockDomain { clock_net: net.name, edge: p.edge, period };
    proof {
        assert(wanted_domain(*design, clocks@, p) == Some(d));
        lemma_known(*registry, d);
    }
    let known: bool = registry.domain_map.contains_key(DomainKey { clock_net: net.name, edge: p.edge });
    if !known && registry.domains.len() >= u32::MAX as usize {
        return registry.async_domain;
    }
    let r = registry.domain_id(net.name, p.edge, period);
    proof {
        assert(registry.domain_map@.contains_key(DomainKey { clock_net: net.name, edge: p.edge }));
    }
    r
}

/// The numbers of the domains of a list of register pins.
pub open spec fn numbered(
    registry: DomainRegistry,
    design: Design,
    clocks: Map<IdString, DelayT>,
    list: Seq<RegisterPin>,
    ids: Seq<ClockDomainId>,
) -> bool {
    &&& ids.len() == list.len()
    &&& forall|k: int|
        0 <= k < list.len() ==> #[trigger] ids[k] == domain_of(registry, design, clocks, list[k])
            && registry.valid(ids[k])
}

/// The register pins of a list belong to cells of the design.
pub open spec fn pins_exist(design: Design, list: Seq<RegisterPin>) -> bool {
    forall|k: int| 0 <= k < list.len() ==> design.valid_cell((#[trigger] list[k]).at.pin.cell)
}

spec fn all_settled(
    registry: DomainRegistry,
    design: Design,
    clocks: Map<IdString, DelayT>,
    list: Seq<RegisterPin>,
    n: int,
) -> bool {
    forall|k: int| 0 <= k < n ==> settled(registry, design, clocks, #[trigger] list[k])
}

proof fn lemma_enrolled_one(
    design: Design,
    clocks: Map<IdString, DelayT>,
    domains: Seq<ClockDomain>,
    list: Seq<RegisterPin>,
    k: int,
)
    requires
        0 <= k < list.len(),
    ensures
        enrolled(design, clocks, domains, list, k + 1) == enrolled(
            design,
            clocks,
            enrolled(design, clocks, domains, list, k),
            seq![list[k]],
            1,
        ),
{
    let mid = enrolled(design, clocks, domains, list, k);
    assert(enrolled(design, clocks, mid, seq![list[k]], 0) == mid);
    assert(seq![list[k]][0] == list[k]);
}

fn enroll(
    design: &Design,
    clocks: &IdMap<IdString, DelayT>,
    registry: &mut DomainRegistry,
    list: &Vec<RegisterPin>,
) -> (ids: Vec<ClockDomainId>)
    requires
        design.wf(),
        old(registry).wf(),
        pins_exist(*design, list@),
    ensures
        final(registry).wf(),
        final(registry).domains@ == enrolled(
            *design,
            clocks@,
            old(registry).domains@,
            list@,
            list@.len() as int,
        ),
        numbered(*final(registry), *design, clocks@, list@, ids@),
        grows_to(*old(registry), *final(registry)),
        all_settled(*final(registry), *design, clocks@, list@, list@.len() as int),
{
    let ghost first = *registry;
    let mut ids: Vec<ClockDomainId> = Vec::new();
    for k in 0..list.len()
        invariant
            design.wf(),
            pins_exist(*design, list@),
            registry.wf(),
            registry.domains@ == enrolled(*design, clocks@, first.domains@, list@, k as int),
            grows_to(first, *registry),
            ids@.len() == k,
            forall|i: int|
                0 <= i < k ==> #[trigger] ids@[i] == domain_of(*registry, *design, clocks@, list@[i])
                    && registry.valid(ids@[i]),
            all_settled(*registry, *design, clocks@, list@, k as int),
    {
        let ghost before = *registry;
        let id = resolve_domain_id(design, clocks, registry, list[k]);
        ids.push(id);
        proof {
            lemma_enrolled_one(*design, clocks@, first.domains@, list@, k as int);
            assert forall|i: int| 0 <= i < k implies settled(*registry, *design, clocks@, #[trigger] list@[i])
                && domain_of(*registry, *design, clocks@, list@[i]) == ids@[i] by {
                assert(settled(before, *design, clocks@, list@[i]));
                lemma_domain_stays(before, *registry, *design, clocks@, list@[i]);
            }
        }
    }
    ids
}

/// The pins of a domain among the first `k` of a list.
pub open spec fn pins_of(list: Seq<RegisterPin>, ids: Seq<ClockDomainId>, d: int, k: int) -> Seq<ClockedPin>
    decreases k,
{
    if k <= 0 {
        Seq::empty()
    } else {
        let rest = pins_of(list, ids, d, k - 1);
        if ids[k - 1].0 == d {
            rest.push(list[k - 1].at)
        } else {
            rest
        }
    }
}

/// The pins where the paths of each domain begin and end.
pub open spec fn filled(
    per_domain: Seq<PerDomain>,
    starts: Seq<RegisterPin>,
    start_ids: Seq<ClockDomainId>,
    ends: Seq<RegisterPin>,
    end_ids: Seq<ClockDomainId>,
) -> bool {
    forall|d: int|
        0 <= d < per_domain.len() ==> (#[trigger] per_domain[d]).startpoints@ == pins_of(
            starts,
            start_ids,
            d,
            starts.len() as int,
        ) && per_domain[d].endpoints@ == pins_of(ends, end_ids, d, ends.len() as int)
}

fn fill_domains(
    n: usize,
    starts: &Vec<RegisterPin>,
    start_ids: &Vec<ClockDomainId>,
    ends: &Vec<RegisterPin>,
    end_ids: &Vec<ClockDomainId>,
) -> (r: Vec<PerDomain>)
    requires
        start_ids@.len() == starts@.len(),
        end_ids@.len() == ends@.len(),
        forall|k: int| 0 <= k < start_ids@.len() ==> (#[trigger] start_ids@[k]).0 < n,
        forall|k: int| 0 <= k < end_ids@.len() ==> (#[trigger] end_ids@[k]).0 < n,
    ensures
        r@.len() == n,
        filled(r@, starts@, start_ids@, ends@, end_ids@),
{
    let mut r: Vec<PerDomain> = Vec::new();
    for d in 0..n
        invariant
            r@.len() == d,
            forall|i: int|
                0 <= i < d ==> (#[trigger] r@[i]).startpoints@.len() == 0 && r@[i].endpoints@.len() == 0,
    {
        r.push(PerDomain::new());
    }
    for k in 0..starts.len()
        invariant
            r@.len() == n,
            start_ids@.len() == starts@.len(),
            forall|i: int| 0 <= i < start_ids@.len() ==> (#[trigger] start_ids@[i]).0 < n,
            forall|d: int|
                0 <= d < n ==> (#[trigger] r@[d]).startpoints@ =~= pins_of(starts@, start_ids@, d, k as int)
                    && r@[d].endpoints@.len() == 0,
    {
        let d: usize = start_ids[k].0 as usize;
        assert(start_ids@[k as int].0 < n);
        r[d].startpoints.push(starts[k].at);
    }
    for k in 0..ends.len()
        invariant
            r@.len() == n,
            end_ids@.len() == ends@.len(),
            forall|i: int| 0 <= i < end_ids@.len() ==> (#[trigger] end_ids@[i]).0 < n,
            forall|d: int|
                0 <= d < n ==> (#[trigger] r@[d]).startpoints@ == pins_of(
                    starts@,
                    start_ids@,
                    d,
                    starts@.len() as int,
                ) && r@[d].endpoints@ =~= pins_of(ends@, end_ids@, d, k as int),
    {
        let d: usize = end_ids[k].0 as usize;
        assert(end_ids@[k as int].0 < n);
        r[d].endpoints.push(ends[k].at);
    }
    r
}

/// The period between the edges of two domains: that of their clock, halved where the edges
/// differ; zero for domains of different clocks.
pub open spec fn pair_period(
    launch: ClockDomain,
    capture: ClockDomain,
    clocks: Map<IdString, DelayT>,
    default_period: DelayT,
) -> DelayT {
    if launch.clock_net != capture.clock_net {
        0
    } else {
        let whole = if clocks.contains_key(launch.clock_net) {
            clocks[launch.clock_net]
        } else {
            default_period
        };
        if launch.edge != capture.edge {
            half_toward_zero(whole as int) as i32
        } else {
            whole
        }
    }
}

/// The pairs of domains that signals cross.
pub struct DomainPairs {
    pub list: Vec<PerDomainPair>,
    pub ids: IdMap<ClockDomainPair, usize>,
}

impl DomainPairs {
    /// The map finds every pair, and no pair stands twice.
    pub open spec fn wf(self) -> bool {
        &&& forall|p: ClockDomainPair| #[trigger]
            self.ids@.contains_key(p) ==> self.ids@[p] < self.list@.len() && self.list@[self.ids@[p] as int].pair
                == p
        &&& forall|i: int|
            0 <= i < self.list@.len() ==> self.ids@.contains_key((#[trigger] self.list@[i]).pair)
                && self.ids@[self.list@[i].pair] == i
    }

    /// No slack is known yet.
    pub open spec fn fresh(pair: ClockDomainPair) -> PerDomainPair {
        PerDomainPair {
            pair,
            period: DelayPair { min_delay: 0, max_delay: 0 },
            worst_setup_slack: i32::MAX,
            worst_hold_slack: i32::MAX,
        }
    }

    pub fn new() -> (r: Self)
        ensures
            r.wf(),
            r.list@.len() == 0,
            r.ids@ == Map::<ClockDomainPair, usize>::empty(),
    {
        DomainPairs { list: Vec::new(), ids: IdMap::new() }
    }

    /// The number of a pair of domains; a new pair goes to the end.
    pub fn domain_pair_id(&mut self, launch: ClockDomainId, capture: ClockDomainId) -> (r: usize)
        requires
            old(self).wf(),
        ensures
            final(self).wf(),
            old(self).ids@.contains_key(ClockDomainPair { launch, capture }) ==> *final(self) == *old(self) && r
                == old(self).ids@[ClockDomainPair { launch, capture }],
            !old(self).ids@.contains_key(ClockDomainPair { launch, capture }) ==> {
                &&& r == old(self).list@.len()
                &&& final(self).list@ == old(self).list@.push(
                    Self::fresh(ClockDomainPair { launch, capture }),
                )
                &&& final(self).ids@ == old(self).ids@.insert(ClockDomainPair { launch, capture }, r)
            },
    {
        let pair = ClockDomainPair { launch, capture };
        if let Some(id) = self.ids.get(pair) {
            return *id;
        }
        let id: usize = self.list.len();
        self.list.push(
            PerDomainPair {
                pair,
                period: DelayPair::uniform(0),
                worst_setup_slack: i32::MAX,
                worst_hold_slack: i32::MAX,
            },
        );
        let _ = self.ids.insert(pair, id);
        id
    }
}

/// A clock domain at a pin.
#[derive(Clone, Copy, PartialEq, Eq, Hash, Debug, Structural)]
pub struct PinDomain {
    pub pin: CellPin,
    pub domain: ClockDomainId,
}

/// A step from a pin of the order leads to a pin of the table, onward or back.
pub open spec fn step_between(
    design: Design,
    ports: Map<CellPin, PortFacts>,
    order: Seq<CellPin>,
    back: bool,
    a: CellPin,
    b: CellPin,
) -> bool {
    &&& order.contains(a)
    &&& ports.contains_key(b)
    &&& leads_in(steps_of(design, ports, back, a), b)
}

/// The steps onward from a pin, or back.
pub open spec fn steps_of(design: Design, ports: Map<CellPin, PortFacts>, back: bool, a: CellPin) -> Seq<Step> {
    if back {
        steps_back(design, ports, a)
    } else {
        steps_from(design, ports, a)
    }
}

/// One of the steps leads to the pin.
pub open spec fn leads_in(steps: Seq<Step>, b: CellPin) -> bool {
    exists|k: int| 0 <= k < steps.len() && (#[trigger] steps[k]).to == b
}

/// Domains go along every step.
pub open spec fn domains_go(
    design: Design,
    ports: Map<CellPin, PortFacts>,
    order: Seq<CellPin>,
    back: bool,
    all: Set<PinDomain>,
) -> bool {
    forall|a: CellPin, b: CellPin, d: ClockDomainId| #[trigger]
        step_between(design, ports, order, back, a, b) && #[trigger] all.contains(
            PinDomain { pin: a, domain: d },
        ) ==> all.contains(PinDomain { pin: b, domain: d })
}

/// The domains at the pins are the seeds and what they spread to along the steps, and nothing
/// else.
pub open spec fn domains_spread(
    design: Design,
    ports: Map<CellPin, PortFacts>,
    order: Seq<CellPin>,
    back: bool,
    seeds: Set<PinDomain>,
    all: Set<PinDomain>,
) -> bool {
    &&& seeds.subset_of(all)
    &&& domains_go(design, ports, order, back, all)
    &&& forall|other: Set<PinDomain>| #[trigger]
        domains_go(design, ports, order, back, other) && seeds.subset_of(other) ==> all.subset_of(other)
}

/// The domains of a list of register pins, each at its pin.
pub open spec fn seeds_of(list: Seq<RegisterPin>, ids: Seq<ClockDomainId>) -> Set<PinDomain> {
    Set::new(|m: PinDomain| exists|k: int| 0 <= k < list.len() && #[trigger] seeded(list, ids, k, m))
}

/// Entry `k` of the list puts the domain at the pin.
pub open spec fn seeded(list: Seq<RegisterPin>, ids: Seq<ClockDomainId>, k: int, m: PinDomain) -> bool {
    list[k].at.pin == m.pin && ids[k] == m.domain
}

/// The order names pins of the table, none twice.
pub open spec fn order_ok(ports: Map<CellPin, PortFacts>, order: Seq<CellPin>) -> bool {
    &&& order.no_duplicates()
    &&& forall|i: int| 0 <= i < order.len() ==> ports.contains_key(#[trigger] order[i])
}

/// The pins of the table, those of the order first.
spec fn lists_pins(ports: Map<CellPin, PortFacts>, order: Seq<CellPin>, nodes: Seq<CellPin>) -> bool {
    &&& nodes.no_duplicates()
    &&& order.len() <= nodes.len()
    &&& forall|i: int| 0 <= i < order.len() ==> #[trigger] nodes[i] == order[i]
    &&& forall|p: CellPin| #[trigger] nodes.contains(p) <==> ports.contains_key(p)
}

proof fn lemma_pin_push(s: Seq<CellPin>, v: CellPin)
    ensures
        forall|x: CellPin| #[trigger] s.push(v).contains(x) <==> s.contains(x) || x == v,
        s.no_duplicates() && !s.contains(v) ==> s.push(v).no_duplicates(),
{
    let next = s.push(v);
    assert forall|x: CellPin| #[trigger] next.contains(x) <==> s.contains(x) || x == v by {
        if s.contains(x) {
            let i = choose|i: int| 0 <= i < s.len() && s[i] == x;
            assert(next[i] == x);
        }
        if x == v {
            assert(next[s.len() as int] == v);
        }
        if next.contains(x) {
            let i = choose|i: int| 0 <= i < next.len() && next[i] == x;
            if i < s.len() {
                assert(s[i] == x);
            }
        }
    }
}

/// The map gives each pin of the list its position, and knows no other pin.
spec fn finds(index: Map<CellPin, usize>, nodes: Seq<CellPin>) -> bool {
    &&& forall|i: int|
        0 <= i < nodes.len() ==> index.contains_key(#[trigger] nodes[i]) && index[nodes[i]] == i
    &&& forall|p: CellPin| #[trigger] index.contains_key(p) ==> index[p] < nodes.len() && nodes[index[p] as int] == p
}

/// The pins of the table with their positions.
struct PinList {
    nodes: Vec<CellPin>,
    index: IdMap<CellPin, usize>,
}

fn list_pins(ports: &IdMap<CellPin, PerPort>, order: &Vec<CellPin>) -> (r: PinList)
    requires
        order_ok(facts_of(ports@), order@),
    ensures
        lists_pins(facts_of(ports@), order@, r.nodes@),
        finds(r.index@, r.nodes@),
{
    let ghost facts = facts_of(ports@);
    let mut nodes: Vec<CellPin> = Vec::new();
    let mut index: IdMap<CellPin, usize> = IdMap::new();
    for i in 0..order.len()
        invariant
            order_ok(facts, order@),
            nodes@ == order@.take(i as int),
            finds(index@, nodes@),
    {
        let pin: CellPin = order[i];
        assert(!nodes@.contains(pin)) by {
            if nodes@.contains(pin) {
                let k = choose|k: int| 0 <= k < nodes@.len() && nodes@[k] == pin;
                assert(order@[k] == order@[i as int]);
            }
        }
        let _ = index.insert(pin, i);
        nodes.push(pin);
        proof {
            assert(order@.take(i + 1) =~= order@.take(i as int).push(pin));
            lemma_pin_push(order@.take(i as int), pin);
            assert forall|k: int| 0 <= k < nodes@.len() implies index@.contains_key(#[trigger] nodes@[k])
                && index@[nodes@[k]] == k by {
                if k < i {
                    assert(nodes@[k] != pin) by {
                        assert(order@[k] != order@[i as int]);
                    }
                }
            }
        }
    }
    assert(order@.take(order@.len() as int) =~= order@);
    let pins = ports.keys();
    for i in 0..pins.len()
        invariant
            facts == facts_of(ports@),
            order_ok(facts, order@),
            forall|p: CellPin| #[trigger] pins@.contains(p) <==> ports@.contains_key(p),
            order@.len() <= nodes@.len(),
            nodes@.no_duplicates(),
            forall|k: int| 0 <= k < order@.len() ==> #[trigger] nodes@[k] == order@[k],
            forall|k: int| 0 <= k < nodes@.len() ==> facts.contains_key(#[trigger] nodes@[k]),
            forall|k: int| 0 <= k < i ==> nodes@.contains(#[trigger] pins@[k]),
            finds(index@, nodes@),
    {
        let pin: CellPin = pins[i];
        assert(pins@.contains(pin));
        let ghost before = nodes@;
        if !index.contains_key(pin) {
            assert(!nodes@.contains(pin)) by {
                if nodes@.contains(pin) {
                    let k = choose|k: int| 0 <= k < nodes@.len() && nodes@[k] == pin;
                    assert(index@.contains_key(nodes@[k]));
                }
            }
            let len: usize = nodes.len();
            let _ = index.insert(pin, len);
            nodes.push(pin);
            proof {
                lemma_pin_push(before, pin);
            }
        } else {
            proof {
                assert(nodes@[index@[pin] as int] == pin);
            }
        }
        proof {
            assert forall|k: int| 0 <= k < i + 1 implies nodes@.contains(#[trigger] pins@[k]) by {
                if k < i {
                    assert(before.contains(pins@[k]));
                }
            }
        }
    }
    proof {
        assert forall|p: CellPin| #[trigger] nodes@.contains(p) <==> facts.contains_key(p) by {
            if facts.contains_key(p) {
                assert(pins@.contains(p));
                let k = choose|k: int| 0 <= k < pins@.len() && pins@[k] == p;
                assert(nodes@.contains(pins@[k]));
            }
        }
    }
    PinList { nodes, index }
}

/// The edges are the steps of the pins of the order.
spec fn edges_are_steps(
    design: Design,
    ports: Map<CellPin, PortFacts>,
    order: Seq<CellPin>,
    back: bool,
    nodes: Seq<CellPin>,
    edges: Seq<Seq<usize>>,
) -> bool {
    &&& edges.len() == nodes.len()
    &&& forall|u: usize, v: usize| #[trigger]
        leads_to(edges, u, v) <==> u < nodes.len() && v < nodes.len() && step_between(
            design,
            ports,
            order,
            back,
            nodes[u as int],
            nodes[v as int],
        )
}

fn step_targets(
    design: &Design,
    ports: &IdMap<CellPin, PerPort>,
    list: &PinList,
    pin: CellPin,
    back: bool,
) -> (row: Vec<usize>)
    requires
        design.wf(),
        pins_in_design(*design, facts_of(ports@)),
        finds(list.index@, list.nodes@),
    ensures
        forall|v: usize| #[trigger]
            row@.contains(v) <==> v < list.nodes@.len() && leads_in(
                steps_of(*design, facts_of(ports@), back, pin),
                list.nodes@[v as int],
            ),
{
    let steps = if back {
        collect_steps_back(design, ports, pin)
    } else {
        collect_steps(design, ports, pin)
    };
    let mut row: Vec<usize> = Vec::new();
    for k in 0..steps.len()
        invariant
            finds(list.index@, list.nodes@),
            forall|v: usize| #[trigger]
                row@.contains(v) <==> v < list.nodes@.len() && leads_in(
                    steps@.take(k as int),
                    list.nodes@[v as int],
                ),
    {
        let to: CellPin = steps[k].to;
        let ghost before = row@;
        let mut found: Option<usize> = None;
        if let Some(v) = list.index.get(to) {
            found = Some(*v);
            row.push(*v);
            proof {
                lemma_push(before, *v);
            }
        }
        proof {
            let part = steps@.take(k as int);
            let whole = steps@.take(k + 1);
            assert forall|v: usize| #[trigger]
                row@.contains(v) <==> v < list.nodes@.len() && leads_in(whole, list.nodes@[v as int]) by {
                assert(row@.contains(v) <==> before.contains(v) || found == Some(v));
                if v < list.nodes@.len() {
                    let b = list.nodes@[v as int];
                    assert(list.index@[list.nodes@[v as int]] == v);
                    if leads_in(part, b) {
                        let i = choose|i: int| 0 <= i < part.len() && (#[trigger] part[i]).to == b;
                        assert(whole[i].to == b);
                    }
                    if found == Some(v) {
                        assert(whole[k as int].to == b);
                    }
                    if leads_in(whole, b) {
                        let i = choose|i: int| 0 <= i < whole.len() && (#[trigger] whole[i]).to == b;
                        if i < k {
                            assert(part[i].to == b);
                        }
                    }
                }
            }
        }
    }
    assert(steps@.take(steps@.len() as int) =~= steps@);
    row
}

fn step_graph(
    design: &Design,
    ports: &IdMap<CellPin, PerPort>,
    order: &Vec<CellPin>,
    list: &PinList,
    back: bool,
) -> (edges: Vec<Vec<usize>>)
    requires
        design.wf(),
        pins_in_design(*design, facts_of(ports@)),
        order_ok(facts_of(ports@), order@),
        lists_pins(facts_of(ports@), order@, list.nodes@),
        finds(list.index@, list.nodes@),
    ensures
        edges_are_steps(*design, facts_of(ports@), order@, back, list.nodes@, rows(edges@)),
        edges_ok(rows(edges@)),
{
    let ghost facts = facts_of(ports@);
    let n: usize = list.nodes.len();
    let mut edges: Vec<Vec<usize>> = Vec::new();
    for u in 0..n
        invariant
            design.wf(),
            facts == facts_of(ports@),
            pins_in_design(*design, facts),
            n == list.nodes@.len(),
            lists_pins(facts, order@, list.nodes@),
            finds(list.index@, list.nodes@),
            edges@.len() == u,
            forall|w: int, v: usize|
                0 <= w < u ==> (#[trigger] edges@[w]@.contains(v) <==> w < order@.len() && v < n && leads_in(
                    steps_of(*design, facts, back, list.nodes@[w]),
                    list.nodes@[v as int],
                )),
    {
        if u < order.len() {
            edges.push(step_targets(design, ports, list, list.nodes[u], back));
        } else {
            edges.push(Vec::new());
        }
    }
    proof {
        let g = rows(edges@);
        assert forall|u: usize, v: usize| #[trigger]
            leads_to(g, u, v) <==> u < n && v < n && step_between(
                *design,
                facts,
                order@,
                back,
                list.nodes@[u as int],
                list.nodes@[v as int],
            ) by {
            if u < n {
                assert(g[u as int] == edges@[u as int]@);
                let a = list.nodes@[u as int];
                assert(order@.contains(a) <==> u < order@.len()) by {
                    if u < order@.len() {
                        assert(order@[u as int] == a);
                    }
                    if order@.contains(a) {
                        let i = choose|i: int| 0 <= i < order@.len() && order@[i] == a;
                        assert(list.nodes@[i] == list.nodes@[u as int]);
                    }
                }
                if v < n {
                    assert(list.nodes@.contains(list.nodes@[v as int]));
                }
            }
        }
        assert forall|u: int, k: int| 0 <= u < g.len() && 0 <= k < g[u].len() implies #[trigger] g[u][k] < g.len() by {
            assert(g[u].contains(g[u][k]));
            assert(leads_to(g, u as usize, g[u][k]));
        }
    }
    edges
}

/// The domains at the pins, as the lists hold them.
pub open spec fn domains_at(nodes: Seq<CellPin>, sets: Seq<Vec<u32>>) -> Set<PinDomain> {
    Set::new(
        |m: PinDomain|
            exists|i: int| 0 <= i < nodes.len() && i < sets.len() && #[trigger] held_at(nodes, sets, i, m),
    )
}

/// The list at position `i` holds the domain, and the pin stands there.
pub open spec fn held_at(nodes: Seq<CellPin>, sets: Seq<Vec<u32>>, i: int, m: PinDomain) -> bool {
    nodes[i] == m.pin && sets[i]@.contains(m.domain.0)
}

proof fn lemma_domains_at(nodes: Seq<CellPin>, sets: Seq<Vec<u32>>, m: PinDomain)
    requires
        nodes.no_duplicates(),
        nodes.len() == sets.len(),
        nodes.len() <= usize::MAX,
    ensures
        forall|i: int|
            0 <= i < nodes.len() && nodes[i] == m.pin ==> (domains_at(nodes, sets).contains(m)
                <==> #[trigger] marks(sets).contains(Mark { node: i as usize, mark: m.domain.0 })),
        domains_at(nodes, sets).contains(m) ==> nodes.contains(m.pin),
{
    assert forall|i: int| 0 <= i < nodes.len() && nodes[i] == m.pin implies (domains_at(nodes, sets).contains(m)
        <==> #[trigger] marks(sets).contains(Mark { node: i as usize, mark: m.domain.0 })) by {
        if domains_at(nodes, sets).contains(m) {
            let j = choose|j: int| 0 <= j < nodes.len() && j < sets.len() && #[trigger] held_at(nodes, sets, j, m);
            assert(j == i);
        }
        if marks(sets).contains(Mark { node: i as usize, mark: m.domain.0 }) {
            assert(held_at(nodes, sets, i, m));
        }
    }
    if domains_at(nodes, sets).contains(m) {
        let j = choose|j: int| 0 <= j < nodes.len() && j < sets.len() && #[trigger] held_at(nodes, sets, j, m);
        assert(nodes[j] == m.pin);
    }
}

/// What spreads on positions spreads on pins.
proof fn lemma_spread_pins(
    design: Design,
    ports: Map<CellPin, PortFacts>,
    order: Seq<CellPin>,
    back: bool,
    nodes: Seq<CellPin>,
    edges: Seq<Seq<usize>>,
    before: Seq<Vec<u32>>,
    after: Seq<Vec<u32>>,
)
    requires
        order_ok(ports, order),
        lists_pins(ports, order, nodes),
        nodes.len() <= usize::MAX,
        edges_are_steps(design, ports, order, back, nodes, edges),
        before.len() == nodes.len(),
        after.len() == nodes.len(),
        spread_of(edges, marks(before), marks(after)),
    ensures
        domains_spread(design, ports, order, back, domains_at(nodes, before), domains_at(nodes, after)),
{
    let seeds = domains_at(nodes, before);
    let all = domains_at(nodes, after);
    assert(seeds.subset_of(all)) by {
        assert forall|m: PinDomain| seeds.contains(m) implies all.contains(m) by {
            let i = choose|i: int|
                0 <= i < nodes.len() && i < before.len() && #[trigger] held_at(nodes, before, i, m);
            assert(marks(before).contains(Mark { node: i as usize, mark: m.domain.0 }));
            assert(marks(after).contains(Mark { node: i as usize, mark: m.domain.0 }));
            assert(held_at(nodes, after, i, m));
        }
    }
    assert forall|a: CellPin, b: CellPin, d: ClockDomainId| #[trigger]
        step_between(design, ports, order, back, a, b) && #[trigger] all.contains(
            PinDomain { pin: a, domain: d },
        ) implies all.contains(PinDomain { pin: b, domain: d }) by {
        let i = choose|i: int|
            0 <= i < nodes.len() && i < after.len() && #[trigger] held_at(
                nodes,
                after,
                i,
                PinDomain { pin: a, domain: d },
            );
        assert(nodes.contains(b));
        let j = choose|j: int| 0 <= j < nodes.len() && nodes[j] == b;
        assert(nodes[i as usize as int] == a && nodes[j as usize as int] == b);
        assert(leads_to(edges, i as usize, j as usize));
        assert(marks(after).contains(Mark { node: i as usize, mark: d.0 }));
        assert(marks(after).contains(Mark { node: j as usize, mark: d.0 }));
        assert(held_at(nodes, after, j, PinDomain { pin: b, domain: d }));
    }
    assert forall|other: Set<PinDomain>| #[trigger]
        domains_go(design, ports, order, back, other) && seeds.subset_of(other) implies all.subset_of(other) by {
        let put = Set::new(
            |m: Mark|
                m.node < nodes.len() && other.contains(
                    PinDomain { pin: nodes[m.node as int], domain: ClockDomainId(m.mark) },
                ),
        );
        assert(crate::timing::spread::goes_along(edges, put)) by {
            assert forall|u: usize, v: usize, d: u32| #[trigger]
                leads_to(edges, u, v) && #[trigger] put.contains(Mark { node: u, mark: d }) implies put.contains(
                Mark { node: v, mark: d },
            ) by {
                let a = nodes[u as int];
                let b = nodes[v as int];
                assert(step_between(design, ports, order, back, a, b));
                assert(other.contains(PinDomain { pin: a, domain: ClockDomainId(d) }));
                assert(other.contains(PinDomain { pin: b, domain: ClockDomainId(d) }));
            }
        }
        assert(marks(before).subset_of(put)) by {
            assert forall|m: Mark| marks(before).contains(m) implies put.contains(m) by {
                let p = PinDomain { pin: nodes[m.node as int], domain: ClockDomainId(m.mark) };
                assert(held_at(nodes, before, m.node as int, p));
                assert(seeds.contains(p));
            }
        }
        assert(marks(after).subset_of(put));
        assert forall|m: PinDomain| all.contains(m) implies other.contains(m) by {
            let i = choose|i: int|
                0 <= i < nodes.len() && i < after.len() && #[trigger] held_at(nodes, after, i, m);
            assert(marks(after).contains(Mark { node: i as usize, mark: m.domain.0 }));
            assert(put.contains(Mark { node: i as usize, mark: m.domain.0 }));
        }
    }
}

/// The register pins stand in the order.
spec fn pins_in_order(order: Seq<CellPin>, list: Seq<RegisterPin>) -> bool {
    forall|k: int| 0 <= k < list.len() ==> order.contains((#[trigger] list[k]).at.pin)
}

fn seed_lists(
    list: &PinList,
    pins: &Vec<RegisterPin>,
    ids: &Vec<ClockDomainId>,
    Ghost(limit): Ghost<int>,
) -> (sets: Vec<Vec<u32>>)
    requires
        finds(list.index@, list.nodes@),
        list.nodes@.no_duplicates(),
        ids@.len() == pins@.len(),
        forall|k: int| 0 <= k < ids@.len() ==> (#[trigger] ids@[k]).0 < limit,
        forall|k: int| 0 <= k < pins@.len() ==> list.nodes@.contains((#[trigger] pins@[k]).at.pin),
    ensures
        sets@.len() == list.nodes@.len(),
        lists_ok(sets@, limit),
        domains_at(list.nodes@, sets@) == seeds_of(pins@, ids@),
{
    let n: usize = list.nodes.len();
    let mut sets: Vec<Vec<u32>> = Vec::new();
    for i in 0..n
        invariant
            sets@.len() == i,
            forall|k: int| 0 <= k < i ==> (#[trigger] sets@[k])@.len() == 0,
    {
        sets.push(Vec::new());
    }
    proof {
        assert(domains_at(list.nodes@, sets@) =~= seeds_of(pins@.take(0), ids@.take(0)));
    }
    for k in 0..pins.len()
        invariant
            finds(list.index@, list.nodes@),
            list.nodes@.no_duplicates(),
            n == list.nodes@.len(),
            ids@.len() == pins@.len(),
            forall|i: int| 0 <= i < ids@.len() ==> (#[trigger] ids@[i]).0 < limit,
            forall|i: int| 0 <= i < pins@.len() ==> list.nodes@.contains((#[trigger] pins@[i]).at.pin),
            sets@.len() == list.nodes@.len(),
            lists_ok(sets@, limit),
            domains_at(list.nodes@, sets@) == seeds_of(pins@.take(k as int), ids@.take(k as int)),
    {
        let pin: CellPin = pins[k].at.pin;
        let id: u32 = ids[k].0;
        assert(ids@[k as int].0 < limit);
        let ghost before = sets@;
        let ghost m = PinDomain { pin, domain: ids@[k as int] };
        proof {
            assert(list.nodes@.contains(pins@[k as int].at.pin));
            let i = choose|i: int| 0 <= i < list.nodes@.len() && list.nodes@[i] == pin;
            assert(list.index@.contains_key(list.nodes@[i]));
        }
        if let Some(v) = list.index.get(pin) {
            let v: usize = *v;
            let _ = crate::timing::spread::add_mark(&mut sets, v, id, Ghost(limit));
            proof {
                assert(list.nodes@[v as int] == pin);
                assert forall|x: PinDomain|
                    domains_at(list.nodes@, sets@).contains(x) <==> domains_at(list.nodes@, before).contains(x)
                        || x == m by {
                    lemma_domains_at(list.nodes@, sets@, x);
                    lemma_domains_at(list.nodes@, before, x);
                    if list.nodes@.contains(x.pin) {
                        let i = choose|i: int| 0 <= i < list.nodes@.len() && list.nodes@[i] == x.pin;
                        let mark = Mark { node: i as usize, mark: x.domain.0 };
                        assert(marks(sets@).contains(mark) <==> marks(before).contains(mark) || mark == (Mark {
                            node: v,
                            mark: id,
                        }));
                        assert(i == v <==> x.pin == pin);
                    }
                    assert(list.nodes@.contains(pin));
                }
            }
        }
        proof {
            let ps = pins@.take(k as int);
            let pw = pins@.take(k + 1);
            let is = ids@.take(k as int);
            let iw = ids@.take(k + 1);
            assert forall|x: PinDomain| seeds_of(pw, iw).contains(x) <==> seeds_of(ps, is).contains(x) || x == m by {
                if seeds_of(ps, is).contains(x) {
                    let i = choose|i: int| 0 <= i < ps.len() && #[trigger] seeded(ps, is, i, x);
                    assert(seeded(pw, iw, i, x));
                }
                if x == m {
                    assert(seeded(pw, iw, k as int, x));
                }
                if seeds_of(pw, iw).contains(x) {
                    let i = choose|i: int| 0 <= i < pw.len() && #[trigger] seeded(pw, iw, i, x);
                    if i < k {
                        assert(seeded(ps, is, i, x));
                    }
                }
            }
            assert(domains_at(list.nodes@, sets@) =~= seeds_of(pw, iw));
        }
    }
    proof {
        assert(pins@.take(pins@.len() as int) =~= pins@);
        assert(ids@.take(ids@.len() as int) =~= ids@);
    }
    sets
}

/// The domains that reach the pins, onward or back.
fn spread_domains(
    design: &Design,
    ports: &IdMap<CellPin, PerPort>,
    order: &Vec<CellPin>,
    list: &PinList,
    pins: &Vec<RegisterPin>,
    ids: &Vec<ClockDomainId>,
    back: bool,
    Ghost(limit): Ghost<int>,
) -> (sets: Vec<Vec<u32>>)
    requires
        design.wf(),
        pins_in_design(*design, facts_of(ports@)),
        order_ok(facts_of(ports@), order@),
        lists_pins(facts_of(ports@), order@, list.nodes@),
        finds(list.index@, list.nodes@),
        ids@.len() == pins@.len(),
        limit >= 0,
        forall|k: int| 0 <= k < ids@.len() ==> (#[trigger] ids@[k]).0 < limit,
        pins_in_order(order@, pins@),
    ensures
        sets@.len() == list.nodes@.len(),
        lists_ok(sets@, limit),
        domains_spread(
            *design,
            facts_of(ports@),
            order@,
            back,
            seeds_of(pins@, ids@),
            domains_at(list.nodes@, sets@),
        ),
{
    let ghost facts = facts_of(ports@);
    let edges = step_graph(design, ports, order, list, back);
    proof {
        assert forall|k: int| 0 <= k < pins@.len() implies list.nodes@.contains((#[trigger] pins@[k]).at.pin) by {
            let p = pins@[k].at.pin;
            assert(order@.contains(p));
            let i = choose|i: int| 0 <= i < order@.len() && order@[i] == p;
            assert(list.nodes@[i] == p);
        }
    }
    let mut sets = seed_lists(list, pins, ids, Ghost(limit));
    let ghost before = sets@;
    assert(list.nodes.len() <= usize::MAX);
    spread(&edges, &mut sets, back, Ghost(limit));
    proof {
        lemma_spread_pins(*design, facts, order@, back, list.nodes@, rows(edges@), before, sets@);
    }
    sets
}

/// A signal of one domain can come to a pin of the order that another domain captures.
pub open spec fn crosses(
    order: Seq<CellPin>,
    arriving: Set<PinDomain>,
    wanted: Set<PinDomain>,
    pair: ClockDomainPair,
) -> bool {
    exists|i: int| 0 <= i < order.len() && #[trigger] crosses_at(order[i], arriving, wanted, pair)
}

/// Both domains of the pair are at the pin.
pub open spec fn crosses_at(
    pin: CellPin,
    arriving: Set<PinDomain>,
    wanted: Set<PinDomain>,
    pair: ClockDomainPair,
) -> bool {
    arriving.contains(PinDomain { pin, domain: pair.launch }) && wanted.contains(
        PinDomain { pin, domain: pair.capture },
    )
}

/// The pairs are those that signals cross.
pub open spec fn pairs_cross(
    order: Seq<CellPin>,
    arriving: Set<PinDomain>,
    wanted: Set<PinDomain>,
    pairs: DomainPairs,
) -> bool {
    &&& pairs.wf()
    &&& forall|p: ClockDomainPair| #[trigger]
        pairs.ids@.contains_key(p) <==> crosses(order, arriving, wanted, p)
}

/// The domains that reach the pins from the starts of the paths and from their ends, and the
/// pairs that meet.
pub open spec fn meets(
    design: Design,
    ports: Map<CellPin, PortFacts>,
    order: Seq<CellPin>,
    starts: Set<PinDomain>,
    ends: Set<PinDomain>,
    arriving: Set<PinDomain>,
    wanted: Set<PinDomain>,
    pairs: DomainPairs,
) -> bool {
    &&& domains_spread(design, ports, order, false, starts, arriving)
    &&& domains_spread(design, ports, order, true, ends, wanted)
    &&& pairs_cross(order, arriving, wanted, pairs)
}

/// The pairs found so far: those of the first `i` pins, and at the next those of the first `a`
/// arriving domains, and of the first `b` wanted ones with the next arriving one.
spec fn pairs_upto(
    arr: Seq<Vec<u32>>,
    req: Seq<Vec<u32>>,
    i: int,
    a: int,
    b: int,
    pairs: Map<ClockDomainPair, usize>,
) -> bool {
    forall|p: ClockDomainPair| #[trigger]
        pairs.contains_key(p) <==> exists|n: int, x: int, y: int| #[trigger]
            pair_from(arr, req, n, x, y, p) && (n < i || (n == i && (x < a || (x == a && y < b))))
}

spec fn pair_from(arr: Seq<Vec<u32>>, req: Seq<Vec<u32>>, n: int, x: int, y: int, p: ClockDomainPair) -> bool {
    &&& 0 <= n < arr.len()
    &&& n < req.len()
    &&& 0 <= x < arr[n]@.len()
    &&& 0 <= y < req[n]@.len()
    &&& p == ClockDomainPair { launch: ClockDomainId(arr[n]@[x]), capture: ClockDomainId(req[n]@[y]) }
}

fn collect_pairs(n: usize, arr: &Vec<Vec<u32>>, req: &Vec<Vec<u32>>) -> (pairs: DomainPairs)
    requires
        n <= arr@.len(),
        n <= req@.len(),
    ensures
        pairs.wf(),
        pairs_upto(arr@, req@, n as int, 0, 0, pairs.ids@),
        forall|i: int|
            0 <= i < pairs.list@.len() ==> #[trigger] pairs.list@[i] == DomainPairs::fresh(pairs.list@[i].pair),
{
    let mut pairs = DomainPairs::new();
    assert(pairs_upto(arr@, req@, 0, 0, 0, pairs.ids@)) by {
        assert forall|p: ClockDomainPair| #[trigger]
            pairs.ids@.contains_key(p) <==> exists|n: int, x: int, y: int| #[trigger]
                pair_from(arr@, req@, n, x, y, p) && (n < 0 || (n == 0 && (x < 0 || (x == 0 && y < 0)))) by {
        }
    }
    for i in 0..n
        invariant
            n <= arr@.len(),
            n <= req@.len(),
            pairs.wf(),
            pairs_upto(arr@, req@, i as int, 0, 0, pairs.ids@),
            forall|k: int|
                0 <= k < pairs.list@.len() ==> #[trigger] pairs.list@[k] == DomainPairs::fresh(
                    pairs.list@[k].pair,
                ),
    {
        let la: usize = arr[i].len();
        let lb: usize = req[i].len();
        for a in 0..la
            invariant
                i < n,
                n <= arr@.len(),
                n <= req@.len(),
                la == arr@[i as int]@.len(),
                lb == req@[i as int]@.len(),
                pairs.wf(),
                pairs_upto(arr@, req@, i as int, a as int, 0, pairs.ids@),
                forall|k: int|
                    0 <= k < pairs.list@.len() ==> #[trigger] pairs.list@[k] == DomainPairs::fresh(
                        pairs.list@[k].pair,
                    ),
        {
            for b in 0..lb
                invariant
                    i < n,
                    n <= arr@.len(),
                    n <= req@.len(),
                    a < la,
                    la == arr@[i as int]@.len(),
                    lb == req@[i as int]@.len(),
                    pairs.wf(),
                    pairs_upto(arr@, req@, i as int, a as int, b as int, pairs.ids@),
                    forall|k: int|
                        0 <= k < pairs.list@.len() ==> #[trigger] pairs.list@[k] == DomainPairs::fresh(
                            pairs.list@[k].pair,
                        ),
            {
                let ghost before = pairs.ids@;
                let launch = ClockDomainId(arr[i][a]);
                let capture = ClockDomainId(req[i][b]);
                let _ = pairs.domain_pair_id(launch, capture);
                proof {
                    let q = ClockDomainPair { launch, capture };
                    assert(pair_from(arr@, req@, i as int, a as int, b as int, q));
                    assert forall|p: ClockDomainPair| #[trigger]
                        pairs.ids@.contains_key(p) <==> exists|n: int, x: int, y: int| #[trigger]
                            pair_from(arr@, req@, n, x, y, p) && (n < i || (n == i && (x < a || (x == a && y < b
                                + 1)))) by {
                        assert(pairs.ids@.contains_key(p) <==> before.contains_key(p) || p == q);
                        if before.contains_key(p) {
                            let (n, x, y) = choose|n: int, x: int, y: int| #[trigger]
                                pair_from(arr@, req@, n, x, y, p) && (n < i || (n == i && (x < a || (x == a && y
                                    < b))));
                            assert(pair_from(arr@, req@, n, x, y, p));
                        }
                        if exists|n: int, x: int, y: int| #[trigger]
                            pair_from(arr@, req@, n, x, y, p) && (n < i || (n == i && (x < a || (x == a && y < b
                                + 1)))) {
                            let (n, x, y) = choose|n: int, x: int, y: int| #[trigger]
                                pair_from(arr@, req@, n, x, y, p) && (n < i || (n == i && (x < a || (x == a && y
                                    < b + 1))));
                            if n == i && x == a && y == b {
                                assert(p == q);
                            } else {
                                assert(pair_from(arr@, req@, n, x, y, p));
                            }
                        }
                    }
                }
            }
            proof {
                lemma_pairs_shift(arr@, req@, i as int, a as int, pairs.ids@);
            }
        }
        proof {
            lemma_pairs_next(arr@, req@, i as int, pairs.ids@);
        }
    }
    pairs
}

proof fn lemma_pairs_shift(arr: Seq<Vec<u32>>, req: Seq<Vec<u32>>, i: int, a: int, pairs: Map<ClockDomainPair, usize>)
    requires
        0 <= i < req.len(),
        pairs_upto(arr, req, i, a, req[i]@.len() as int, pairs),
    ensures
        pairs_upto(arr, req, i, a + 1, 0, pairs),
{
    assert forall|p: ClockDomainPair| #[trigger]
        pairs.contains_key(p) <==> exists|n: int, x: int, y: int| #[trigger]
            pair_from(arr, req, n, x, y, p) && (n < i || (n == i && (x < a + 1 || (x == a + 1 && y < 0)))) by {
        if pairs.contains_key(p) {
            let (n, x, y) = choose|n: int, x: int, y: int| #[trigger]
                pair_from(arr, req, n, x, y, p) && (n < i || (n == i && (x < a || (x == a && y
                    < req[i]@.len()))));
            assert(pair_from(arr, req, n, x, y, p));
        }
        if exists|n: int, x: int, y: int| #[trigger]
            pair_from(arr, req, n, x, y, p) && (n < i || (n == i && (x < a + 1 || (x == a + 1 && y < 0)))) {
            let (n, x, y) = choose|n: int, x: int, y: int| #[trigger]
                pair_from(arr, req, n, x, y, p) && (n < i || (n == i && (x < a + 1 || (x == a + 1 && y < 0))));
            assert(pair_from(arr, req, n, x, y, p));
        }
    }
}

proof fn lemma_pairs_next(arr: Seq<Vec<u32>>, req: Seq<Vec<u32>>, i: int, pairs: Map<ClockDomainPair, usize>)
    requires
        0 <= i < arr.len(),
        pairs_upto(arr, req, i, arr[i]@.len() as int, 0, pairs),
    ensures
        pairs_upto(arr, req, i + 1, 0, 0, pairs),
{
    assert forall|p: ClockDomainPair| #[trigger]
        pairs.contains_key(p) <==> exists|n: int, x: int, y: int| #[trigger]
            pair_from(arr, req, n, x, y, p) && (n < i + 1 || (n == i + 1 && (x < 0 || (x == 0 && y < 0)))) by {
        if pairs.contains_key(p) {
            let (n, x, y) = choose|n: int, x: int, y: int| #[trigger]
                pair_from(arr, req, n, x, y, p) && (n < i || (n == i && (x < arr[i]@.len() || (x
                    == arr[i]@.len() && y < 0))));
            assert(pair_from(arr, req, n, x, y, p));
        }
        if exists|n: int, x: int, y: int| #[trigger]
            pair_from(arr, req, n, x, y, p) && (n < i + 1 || (n == i + 1 && (x < 0 || (x == 0 && y < 0)))) {
            let (n, x, y) = choose|n: int, x: int, y: int| #[trigger]
                pair_from(arr, req, n, x, y, p) && (n < i + 1 || (n == i + 1 && (x < 0 || (x == 0 && y < 0))));
            assert(pair_from(arr, req, n, x, y, p));
        }
    }
}

proof fn lemma_pairs_cross(
    order: Seq<CellPin>,
    nodes: Seq<CellPin>,
    arr: Seq<Vec<u32>>,
    req: Seq<Vec<u32>>,
    pairs: DomainPairs,
)
    requires
        pairs.wf(),
        nodes.no_duplicates(),
        nodes.len() <= usize::MAX,
        arr.len() == nodes.len(),
        req.len() == nodes.len(),
        order.len() <= nodes.len(),
        forall|i: int| 0 <= i < order.len() ==> #[trigger] nodes[i] == order[i],
        pairs_upto(arr, req, order.len() as int, 0, 0, pairs.ids@),
    ensures
        pairs_cross(order, domains_at(nodes, arr), domains_at(nodes, req), pairs),
{
    let arriving = domains_at(nodes, arr);
    let wanted = domains_at(nodes, req);
    assert forall|p: ClockDomainPair| #[trigger]
        pairs.ids@.contains_key(p) <==> crosses(order, arriving, wanted, p) by {
        if pairs.ids@.contains_key(p) {
            let (n, x, y) = choose|n: int, x: int, y: int| #[trigger]
                pair_from(arr, req, n, x, y, p) && (n < order.len() || (n == order.len() && (x < 0 || (x == 0
                    && y < 0))));
            let pin = order[n];
            assert(nodes[n] == pin);
            assert(arr[n]@.contains(p.launch.0)) by {
                assert(arr[n]@[x] == p.launch.0);
            }
            assert(req[n]@.contains(p.capture.0)) by {
                assert(req[n]@[y] == p.capture.0);
            }
            assert(held_at(nodes, arr, n, PinDomain { pin, domain: p.launch }));
            assert(held_at(nodes, req, n, PinDomain { pin, domain: p.capture }));
            assert(crosses_at(order[n], arriving, wanted, p));
        }
        if crosses(order, arriving, wanted, p) {
            let i = choose|i: int| 0 <= i < order.len() && #[trigger] crosses_at(order[i], arriving, wanted, p);
            let pin = order[i];
            let ma = PinDomain { pin, domain: p.launch };
            let mb = PinDomain { pin, domain: p.capture };
            assert(nodes[i] == pin);
            let j = choose|j: int| 0 <= j < nodes.len() && j < arr.len() && #[trigger] held_at(nodes, arr, j, ma);
            let k = choose|k: int| 0 <= k < nodes.len() && k < req.len() && #[trigger] held_at(nodes, req, k, mb);
            assert(j == i && k == i);
            let x = choose|x: int| 0 <= x < arr[i]@.len() && arr[i]@[x] == p.launch.0;
            let y = choose|y: int| 0 <= y < req[i]@.len() && req[i]@[y] == p.capture.0;
            assert(pair_from(arr, req, i, x, y, p));
        }
    }
}

proof fn lemma_register_pins(pin: CellPin, arcs: Seq<CellArc>, arc_type: CellArcType, k: int, j: int)
    requires
        0 <= k <= arcs.len(),
        0 <= j < register_pins(pin, arcs, arc_type, k).len(),
    ensures
        register_pins(pin, arcs, arc_type, k)[j].at.pin == pin,
    decreases k,
{
    if k > 0 {
        let rest = register_pins(pin, arcs, arc_type, k - 1);
        if j < rest.len() {
            lemma_register_pins(pin, arcs, arc_type, k - 1, j);
            assert(register_pins(pin, arcs, arc_type, k)[j] == rest[j]);
        }
    }
}

proof fn lemma_pins_at(ports: Map<CellPin, PortFacts>, pin: CellPin, outputs: bool, j: int)
    requires
        0 <= j < pins_at(ports, pin, outputs).len(),
    ensures
        pins_at(ports, pin, outputs)[j].at.pin == pin,
{
    lemma_register_pins(
        pin,
        ports[pin].arcs,
        if outputs {
            CellArcType::ClockToQ
        } else {
            CellArcType::Setup
        },
        ports[pin].arcs.len() as int,
        j,
    );
}

proof fn lemma_launches(ports: Map<CellPin, PortFacts>, order: Seq<CellPin>, i: int, j: int)
    requires
        0 <= i <= order.len(),
        0 <= j < launches(ports, order, i).len(),
    ensures
        order.contains(launches(ports, order, i)[j].at.pin),
    decreases i,
{
    if i > 0 {
        let rest = launches(ports, order, i - 1);
        if j < rest.len() {
            lemma_launches(ports, order, i - 1, j);
        } else {
            lemma_pins_at(ports, order[i - 1], true, j - rest.len());
        }
    }
}

proof fn lemma_captures(ports: Map<CellPin, PortFacts>, order: Seq<CellPin>, i: int, j: int)
    requires
        0 <= i <= order.len(),
        0 <= j < captures(ports, order, i).len(),
    ensures
        order.contains(captures(ports, order, i)[j].at.pin),
    decreases order.len() - i,
{
    if i < order.len() {
        let rest = captures(ports, order, i + 1);
        if j < rest.len() {
            lemma_captures(ports, order, i + 1, j);
        } else {
            lemma_pins_at(ports, order[i], false, j - rest.len());
        }
    }
}

/// The numbers of the domains of a list of register pins, by a registry.
pub open spec fn numbers_of(
    registry: DomainRegistry,
    design: Design,
    clocks: Map<IdString, DelayT>,
    list: Seq<RegisterPin>,
) -> Seq<ClockDomainId> {
    Seq::new(list.len(), |k: int| domain_of(registry, design, clocks, list[k]))
}

/// The clock domains of a design.
pub struct DomainSetup {
    pub registry: DomainRegistry,
    /// For each domain, where its paths begin and end.
    pub per_domain: Vec<PerDomain>,
    pub pairs: DomainPairs,
}

/// The domains of a design: the registry holds those that the register pins ask for, the paths of
/// each begin and end at its pins, and the pairs are those that meet at some pin, with the period
/// between their edges.
pub open spec fn domains_set(
    design: Design,
    clocks: Map<IdString, DelayT>,
    default_period: DelayT,
    ports: Map<CellPin, PortFacts>,
    order: Seq<CellPin>,
    r: DomainSetup,
) -> bool {
    let starts = launches(ports, order, order.len() as int);
    let ends = captures(ports, order, 0);
    let start_ids = numbers_of(r.registry, design, clocks, starts);
    let end_ids = numbers_of(r.registry, design, clocks, ends);
    &&& r.registry.wf()
    &&& r.registry.domains@ == enrolled(
        design,
        clocks,
        enrolled(design, clocks, seq![ClockDomain::without_clock()], starts, starts.len() as int),
        ends,
        ends.len() as int,
    )
    &&& r.per_domain@.len() == r.registry.domains@.len()
    &&& filled(r.per_domain@, starts, start_ids, ends, end_ids)
    &&& exists|arriving: Set<PinDomain>, wanted: Set<PinDomain>| #[trigger]
        meets(
            design,
            ports,
            order,
            seeds_of(starts, start_ids),
            seeds_of(ends, end_ids),
            arriving,
            wanted,
            r.pairs,
        )
    &&& forall|i: int|
        0 <= i < r.pairs.list@.len() ==> #[trigger] pair_timed(r.registry, clocks, default_period, r.pairs.list@[i])
}

/// The pair has the period between the edges of its domains, and no slack yet.
pub open spec fn pair_timed(
    registry: DomainRegistry,
    clocks: Map<IdString, DelayT>,
    default_period: DelayT,
    p: PerDomainPair,
) -> bool {
    let period = pair_period(
        registry.domain(p.pair.launch),
        registry.domain(p.pair.capture),
        clocks,
        default_period,
    );
    &&& registry.valid(p.pair.launch)
    &&& registry.valid(p.pair.capture)
    &&& p == PerDomainPair {
        period: DelayPair { min_delay: period, max_delay: period },
        ..DomainPairs::fresh(p.pair)
    }
}

fn time_pairs(
    registry: &DomainRegistry,
    clocks: &IdMap<IdString, DelayT>,
    default_period: DelayT,
    pairs: &mut DomainPairs,
)
    requires
        old(pairs).wf(),
        forall|i: int|
            0 <= i < old(pairs).list@.len() ==> #[trigger] old(pairs).list@[i] == DomainPairs::fresh(
                old(pairs).list@[i].pair,
            ),
        forall|i: int|
            0 <= i < old(pairs).list@.len() ==> registry.valid((#[trigger] old(pairs).list@[i]).pair.launch)
                && registry.valid(old(pairs).list@[i].pair.capture),
    ensures
        final(pairs).wf(),
        final(pairs).ids == old(pairs).ids,
        forall|i: int|
            0 <= i < final(pairs).list@.len() ==> #[trigger] pair_timed(
                *registry,
                clocks@,
                default_period,
                final(pairs).list@[i],
            ),
{
    let ghost was = *pairs;
    let n: usize = pairs.list.len();
    for i in 0..n
        invariant
            n == was.list@.len(),
            pairs.list@.len() == n,
            pairs.ids == was.ids,
            was.wf(),
            forall|k: int|
                0 <= k < n ==> #[trigger] was.list@[k] == DomainPairs::fresh(was.list@[k].pair) && registry.valid(
                    was.list@[k].pair.launch,
                ) && registry.valid(was.list@[k].pair.capture),
            forall|k: int| 0 <= k < n ==> (#[trigger] pairs.list@[k]).pair == was.list@[k].pair,
            forall|k: int| i <= k < n ==> #[trigger] pairs.list@[k] == was.list@[k],
            forall|k: int|
                0 <= k < i ==> #[trigger] pair_timed(*registry, clocks@, default_period, pairs.list@[k]),
    {
        let mut p: PerDomainPair = pairs.list[i];
        assert(was.list@[i as int] == DomainPairs::fresh(was.list@[i as int].pair));
        let launch = registry.get(p.pair.launch);
        let capture = registry.get(p.pair.capture);
        let ghost before = pairs.list@;
        if launch.clock_net == capture.clock_net {
            let whole: DelayT = match clocks.get(launch.clock_net) {
                Some(x) => *x,
                None => default_period,
            };
            let same: bool = launch.edge == capture.edge;
            let period: DelayT = if same {
                whole
            } else {
                half_of(whole)
            };
            p.period = DelayPair::uniform(period);
        }
        pairs.list.set(i, p);
        proof {
            assert(pair_timed(*registry, clocks@, default_period, pairs.list@[i as int]));
            assert forall|k: int| 0 <= k < i + 1 implies #[trigger] pair_timed(
                *registry,
                clocks@,
                default_period,
                pairs.list@[k],
            ) by {
                if k < i {
                    assert(pairs.list@[k] == before[k]);
                }
            }
        }
    }
    proof {
        assert forall|p: ClockDomainPair| #[trigger] pairs.ids@.contains_key(p) implies pairs.ids@[p]
            < pairs.list@.len() && pairs.list@[pairs.ids@[p] as int].pair == p by {
            assert(was.ids@.contains_key(p));
        }
        assert forall|i: int| 0 <= i < pairs.list@.len() implies pairs.ids@.contains_key(
            (#[trigger] pairs.list@[i]).pair,
        ) && pairs.ids@[pairs.list@[i].pair] == i by {
            assert(was.list@[i].pair == pairs.list@[i].pair);
        }
    }
}

/// Gives the register pins their clock domains, and finds the pairs of domains that signals cross.
#[verifier::spinoff_prover]
#[verifier::rlimit(40)]
pub fn setup_port_domains(
    design: &Design,
    clocks: &IdMap<IdString, DelayT>,
    default_period: DelayT,
    ports: &IdMap<CellPin, PerPort>,
    order: &Vec<CellPin>,
) -> (r: DomainSetup)
    requires
        design.wf(),
        pins_in_design(*design, facts_of(ports@)),
        order_ok(facts_of(ports@), order@),
    ensures
        domains_set(*design, clocks@, default_period, facts_of(ports@), order@, r),
{
    let ghost facts = facts_of(ports@);
    let starts = collect_launches(ports, order);
    let ends = collect_captures(ports, order);
    proof {
        assert forall|k: int| 0 <= k < starts@.len() implies order@.contains((#[trigger] starts@[k]).at.pin)
            && design.valid_cell(starts@[k].at.pin.cell) by {
            lemma_launches(facts, order@, order@.len() as int, k);
            let i = choose|i: int| 0 <= i < order@.len() && order@[i] == starts@[k].at.pin;
            assert(facts.contains_key(order@[i]));
        }
        assert forall|k: int| 0 <= k < ends@.len() implies order@.contains((#[trigger] ends@[k]).at.pin)
            && design.valid_cell(ends@[k].at.pin.cell) by {
            lemma_captures(facts, order@, 0, k);
            let i = choose|i: int| 0 <= i < order@.len() && order@[i] == ends@[k].at.pin;
            assert(facts.contains_key(order@[i]));
        }
    }
    let mut registry = DomainRegistry::new();
    let start_ids = enroll(design, clocks, &mut registry, &starts);
    let ghost mid = registry;
    let end_ids = enroll(design, clocks, &mut registry, &ends);
    let n: usize = registry.domains.len();
    proof {
        assert forall|k: int| 0 <= k < starts@.len() implies #[trigger] start_ids@[k] == domain_of(
            registry,
            *design,
            clocks@,
            starts@[k],
        ) by {
            assert(settled(mid, *design, clocks@, starts@[k]));
            lemma_domain_stays(mid, registry, *design, clocks@, starts@[k]);
        }
        assert(start_ids@ =~= numbers_of(registry, *design, clocks@, starts@));
        assert(end_ids@ =~= numbers_of(registry, *design, clocks@, ends@));
        assert forall|k: int| 0 <= k < start_ids@.len() implies (#[trigger] start_ids@[k]).0 < n by {
            assert(mid.valid(start_ids@[k]));
        }
        assert forall|k: int| 0 <= k < end_ids@.len() implies (#[trigger] end_ids@[k]).0 < n by {
            assert(registry.valid(end_ids@[k]));
        }
    }
    let per_domain = fill_domains(n, &starts, &start_ids, &ends, &end_ids);
    let list = list_pins(ports, order);
    let arr = spread_domains(design, ports, order, &list, &starts, &start_ids, false, Ghost(n as int));
    let req = spread_domains(design, ports, order, &list, &ends, &end_ids, true, Ghost(n as int));
    assert(list.nodes.len() <= usize::MAX);
    let mut pairs = collect_pairs(order.len(), &arr, &req);
    let ghost arriving = domains_at(list.nodes@, arr@);
    let ghost wanted = domains_at(list.nodes@, req@);
    proof {
        assert forall|i: int| 0 <= i < pairs.list@.len() implies registry.valid(
            (#[trigger] pairs.list@[i]).pair.launch,
        ) && registry.valid(pairs.list@[i].pair.capture) by {
            let p = pairs.list@[i].pair;
            assert(pairs.ids@.contains_key(p));
            let (m, x, y) = choose|m: int, x: int, y: int| #[trigger]
                pair_from(arr@, req@, m, x, y, p) && (m < order@.len() || (m == order@.len() && (x < 0 || (x == 0
                    && y < 0))));
            assert(arr@[m]@.no_duplicates() && req@[m]@.no_duplicates());
            assert(arr@[m]@[x] < n && req@[m]@[y] < n);
        }
    }
    time_pairs(&registry, clocks, default_period, &mut pairs);
    proof {
        lemma_pairs_cross(order@, list.nodes@, arr@, req@, pairs);
    }
    let r = DomainSetup { registry, per_domain, pairs };
    proof {
        let a = launches(facts, order@, order@.len() as int);
        let b = captures(facts, order@, 0);
        assert(starts@ == a && ends@ == b);
        assert(numbers_of(r.registry, *design, clocks@, a) == start_ids@);
        assert(numbers_of(r.registry, *design, clocks@, b) == end_ids@);
        assert(r.registry.domains@ == enrolled(*design, clocks@, mid.domains@, b, b.len() as int));
        assert(meets(
            *design,
            facts,
            order@,
            seeds_of(a, start_ids@),
            seeds_of(b, end_ids@),
            arriving,
            wanted,
            r.pairs,
        ));
    }
    r
}

} // verus!
